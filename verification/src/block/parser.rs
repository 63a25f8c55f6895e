use vstd::prelude::*;

use crate::block::line::{classified, classify, from_line, is_verbatim_close, line_class, Line};
use crate::block::step::{
    block_attached, block_opened, closes_top, collected, fed, finished, grown, grown_with, line_fed, no_blocks, paragraph_node,
    pushed, read_body, row_added, stack_line, text_added, top_closed, unwound, verbatim_closed, verbatim_line, Blocks, Held,
};
use crate::node::attribute::{owned_is_attribute_chain, parse_attribute_block};
use crate::node::delimiter::{delimiter_at, Delimiter};
use crate::node::tree::{
    all_nested, all_rows_unsplit, all_unplaced, blocks_in_order, is_block, leading_run, spans_ordered, lemma_leading_run, lemma_leading_run_is,
    lemma_leaves_unsplit, lemma_unplaced_children_nested, lemma_unplaced_nested, lemma_unplaced_tree_in, opens_with_syntax,
    same_block_kind,
    trees_in, Node, NodeKind,
};
use crate::span::{
    count_newlines, ends_line, lemma_count_newlines_flat, lemma_count_newlines_mono, Span,
};
use crate::text::{push_bytes, string_from, BACKSLASH, BACKTICK, CR, LF, SPACE};
use crate::whitespace::{
    dedent, indent, is_ws, leading_ws, lemma_leading_ws, lemma_trailing_ws, trailing_ws, trim, trim_spec,
    trim_start, trim_start_spec,
};

verus! {

/// `line` is the content of one line of `src`, which `span` locates: the
/// bytes from `span.start` to `span.end`, without a `\n`, ending where the
/// line's content ends, on the line `start_line` counts.
pub open spec fn line_in(src: Seq<u8>, line: Seq<u8>, span: Span) -> bool {
    &&& span.start <= span.end <= src.len()
    &&& src.subrange(span.start as int, span.end as int) == line
    &&& forall|k: int| 0 <= k < line.len() ==> line[k] != LF
    &&& ends_line(src, span.end as int)
    &&& span.start_line == span.end_line
    &&& span.start_line == count_newlines(src.take(span.start as int))
}

/// An open block on the stack: located, with complete children, and with
/// those that carry a span starting inside its span and ending by `settled`,
/// where its closing fence will cover them.
pub open spec fn stacked_ok(src: Seq<u8>, n: Node, settled: int) -> bool {
    &&& n.span matches Some(s) && s.end <= settled
    &&& n.located_in(src)
    &&& (n.kind is Marker || n.kind is Delimiter)
    &&& (n.kind is Marker ==> n.fence is Some)
    &&& trees_in(src, n.children@)
    &&& blocks_in_order(n.children@)
    &&& spans_ordered(n.children@)
    &&& n.rows_unsplit()
    &&& (n.attributes matches Some(a) ==> a.blocks@.len() == 0)
    &&& all_nested(n.children@)
    &&& forall|i: int|
        0 <= i < n.children@.len() && (#[trigger] n.children@[i]).span is Some ==> n.span.unwrap().start
            <= n.children@[i].span.unwrap().start && n.children@[i].span.unwrap().end <= settled
}

/// Everything the parser holds ends by `settled`, where the source has been
/// read to; a verbatim block still open starts after that and ends by `reach`.
pub open spec fn settled_node(src: Seq<u8>, n: Node, settled: int) -> bool {
    n.tree_in(src) && (n.span matches Some(s) ==> s.end <= settled)
}

/// A node the block parser holds.
pub enum Accumulator {
    /// Carries attribute nodes so an ``attr: block can interrupt a paragraph
    /// the same way it interrupts a table.
    Paragraph { text: Vec<u8>, attributes: Vec<Node>, span: Span },
    Table(Node),
    /// A single-line marker, such as a heading or list item, held for a line
    /// so an ``attr: block directly below it can attach.
    Resolved(Node),
}

pub struct Open {
    pub node: Node,
    pub indent: usize,
}

pub open spec fn accumulator_ok(src: Seq<u8>, acc: Accumulator, settled: int) -> bool {
    match acc {
        Accumulator::Paragraph { attributes, span, .. } => {
            &&& span.describes(src)
            &&& span.end <= settled
            &&& trees_in(src, attributes@)
            &&& blocks_in_order(attributes@)
            &&& all_rows_unsplit(attributes@)
            &&& all_nested(attributes@)
            &&& forall|i: int|
                0 <= i < attributes@.len() ==> {
                    &&& (#[trigger] attributes@[i]).span is Some
                    &&& span.covers(attributes@[i].span.unwrap())
                    &&& attributes@[i].kind is Attributes
                }
        },
        Accumulator::Table(n) => {
            &&& settled_node(src, n, settled)
            &&& n.span is Some
            &&& n.kind is Table
            &&& n.attributes is None
            &&& n.rows_unsplit()
            &&& n.nested()
        },
        Accumulator::Resolved(n) => {
            &&& settled_node(src, n, settled)
            &&& n.rows_unsplit()
            &&& n.nested()
            &&& n.span is Some
            &&& n.kind is Marker
            &&& (n.attributes matches Some(a) ==> a.blocks@.len() == 0)
        },
    }
}

pub open spec fn open_ok(src: Seq<u8>, n: Node, settled: int, reach: int) -> bool {
    &&& n.kind == NodeKind::Delimiter(Delimiter::Verbatim)
    &&& n.span matches Some(s) && settled < s.start && s.end <= reach
    &&& n.located_in(src)
    &&& n.fence is None
    &&& all_unplaced(n.children@)
    &&& forall|i: int| 0 <= i < n.children@.len() ==> (#[trigger] n.children@[i]).children@.len() == 0
}

pub struct Parser {
    pub resolved: Vec<Node>,
    pub stack: Vec<Node>,
    pub accumulator: Option<Accumulator>,
    pub open: Option<Open>,
    /// The source being parsed.
    pub src: Ghost<Seq<u8>>,
    /// Every span held, except an open verbatim block's, ends by here.
    pub settled: Ghost<int>,
    /// Every span held ends by here.
    pub reach: Ghost<int>,
}

impl Parser {
    /// What the parser holds outside an open verbatim block is in order.
    pub open spec fn wf_held(self) -> bool {
        let src = self.src@;
        let settled = self.settled@;
        &&& -1 <= settled
        &&& trees_in(src, self.resolved@)
        &&& blocks_in_order(self.resolved@)
        &&& all_rows_unsplit(self.resolved@)
        &&& all_nested(self.resolved@)
        &&& forall|i: int| 0 <= i < self.resolved@.len() ==> (#[trigger] self.resolved@[i]).span is Some && !(self.resolved@[i].kind is Raw)
        &&& forall|i: int| 0 <= i < self.resolved@.len() ==> (#[trigger] self.resolved@[i]).span.unwrap().end <= settled
        &&& spans_ordered(self.resolved@)
        &&& forall|i: int| 0 <= i < self.stack@.len() ==> stacked_ok(src, #[trigger] self.stack@[i], settled)
        &&& (self.accumulator matches Some(acc) ==> accumulator_ok(src, acc, settled))
        &&& (self.stack@.len() > 0 ==> forall|i: int|
            0 <= i < self.resolved@.len() ==> (#[trigger] self.resolved@[i]).span.unwrap().end < self.stack@[0].span.unwrap().start)
        &&& forall|i: int, j: int|
            0 <= i < j < self.stack@.len() ==> (#[trigger] self.stack@[i]).span.unwrap().start <= (
            #[trigger] self.stack@[j]).span.unwrap().start
        &&& ((self.stack@.len() > 0 && self.accumulator is Some) ==> self.stack@.last().span.unwrap().start
            <= accumulator_start(self.accumulator.unwrap()))
        &&& forall|i: int, k: int|
            0 <= i < self.stack@.len() - 1 && 0 <= k < self.stack@[i].children@.len() && (
            #[trigger] self.stack@[i].children@[k]).span is Some ==> self.stack@[i].children@[k].span.unwrap().end
                < self.stack@[i + 1].span.unwrap().start
        &&& ((self.stack@.len() > 0 && self.accumulator is Some) ==> forall|k: int|
            0 <= k < self.stack@.last().children@.len() && (#[trigger] self.stack@.last().children@[k]).span is Some
                ==> self.stack@.last().children@[k].span.unwrap().end < accumulator_start(self.accumulator.unwrap()))
        &&& ((self.stack@.len() == 0 && self.accumulator is Some) ==> forall|i: int|
            0 <= i < self.resolved@.len() ==> (#[trigger] self.resolved@[i]).span.unwrap().end < accumulator_start(
                self.accumulator.unwrap(),
            ))
    }

    pub open spec fn wf(self) -> bool {
        let src = self.src@;
        let settled = self.settled@;
        let reach = self.reach@;
        &&& self.wf_held()
        &&& settled <= reach
        &&& (self.open matches Some(o) ==> open_ok(src, o.node, settled, reach))
        &&& (self.open is None ==> settled == reach)
    }

    pub(crate) fn new(Ghost(src): Ghost<Seq<u8>>) -> (p: Parser)
        ensures
            p.wf(),
            p.src@ == src,
            p.reach@ == -1,
            p.blocks() == no_blocks(),
    {
        let p = Parser {
            resolved: Vec::new(),
            stack: Vec::new(),
            accumulator: None,
            open: None,
            src: Ghost(src),
            settled: Ghost(-1),
            reach: Ghost(-1),
        };
        assert(p.blocks() =~= no_blocks());
        p
    }
}

impl Accumulator {
    /// What the accumulator holds, by the views of its fields.
    pub open spec fn held(self) -> Held {
        match self {
            Accumulator::Paragraph { text, attributes, span } => Held::Paragraph { text: text@, attributes: attributes@, span },
            Accumulator::Table(n) => Held::Table(n),
            Accumulator::Resolved(n) => Held::Resolved(n),
        }
    }
}

impl Parser {
    /// What the parser holds, as the steps of the block pass describe it.
    pub open spec fn blocks(self) -> Blocks {
        Blocks {
            resolved: self.resolved@,
            stack: self.stack@,
            held: match self.accumulator {
                Some(a) => Some(a.held()),
                None => None,
            },
            open: match self.open {
                Some(o) => Some((o.node, o.indent as int)),
                None => None,
            },
        }
    }
}

/// The start of the span the accumulator holds.
pub open spec fn accumulator_start(acc: Accumulator) -> int {
    match acc {
        Accumulator::Paragraph { span, .. } => span.start as int,
        Accumulator::Table(n) => n.span.unwrap().start as int,
        Accumulator::Resolved(n) => n.span.unwrap().start as int,
    }
}

/// The end of the span the accumulator holds.
pub open spec fn accumulator_end(acc: Accumulator) -> int {
    match acc {
        Accumulator::Paragraph { span, .. } => span.end as int,
        Accumulator::Table(n) => n.span.unwrap().end as int,
        Accumulator::Resolved(n) => n.span.unwrap().end as int,
    }
}

impl Parser {
    /// Everything the parser holds outside an open verbatim block ends
    /// before `pos`.
    pub open spec fn held_before(self, pos: int) -> bool {
        &&& (self.accumulator matches Some(acc) ==> accumulator_end(acc) < pos)
        &&& forall|i: int| 0 <= i < self.stack@.len() ==> (#[trigger] self.stack@[i]).span.unwrap().end < pos
        &&& forall|i: int, k: int|
            0 <= i < self.stack@.len() && 0 <= k < self.stack@[i].children@.len() && (
            #[trigger] self.stack@[i].children@[k]).span is Some ==> self.stack@[i].children@[k].span.unwrap().end < pos
        &&& forall|i: int| 0 <= i < self.resolved@.len() ==> (#[trigger] self.resolved@[i]).span.unwrap().end < pos
    }

    /// Moves the point the source has been read to.
    fn settle(&mut self, Ghost(to): Ghost<int>)
        requires
            old(self).wf_held(),
            old(self).open is None,
            old(self).settled@ <= to,
        ensures
            final(self).wf(),
            final(self).settled@ == to,
            final(self).reach@ == to,
            final(self).src == old(self).src,
            final(self).resolved == old(self).resolved,
            final(self).stack == old(self).stack,
            final(self).accumulator == old(self).accumulator,
            final(self).open == old(self).open,
    {
        let ghost before = self.settled@;
        self.settled = Ghost(to);
        self.reach = Ghost(to);
        proof {
            let src = self.src@;
            assert forall|i: int| 0 <= i < self.stack@.len() implies stacked_ok(src, #[trigger] self.stack@[i], to) by {
                assert(stacked_ok(src, self.stack@[i], before));
            }
        }
    }

    fn push_resolved_node(&mut self, node: Node)
        requires
            old(self).wf(),
            node.tree_in(old(self).src@),
            node.span matches Some(s) ==> s.end <= old(self).settled@,
            (node.span is Some && old(self).stack@.len() > 0) ==> old(self).stack@.last().span.unwrap().start
                <= node.span.unwrap().start,
            (node.span is Some && old(self).stack@.len() > 0) ==> forall|k: int|
                0 <= k < old(self).stack@.last().children@.len() && (#[trigger] old(self).stack@.last().children@[k]).span
                    is Some ==> old(self).stack@.last().children@[k].span.unwrap().end < node.span.unwrap().start,
            is_block(node) ==> old(self).held_before(node.span.unwrap().start as int),
            node.rows_unsplit(),
            node.nested(),
            node.span is Some,
            !(node.kind is Raw),
            old(self).stack@.len() == 0 ==> forall|i: int|
                0 <= i < old(self).resolved@.len() ==> (#[trigger] old(self).resolved@[i]).span.unwrap().end
                    < node.span.unwrap().start,
            old(self).accumulator is None,
        ensures
            final(self).wf(),
            final(self).src == old(self).src,
            final(self).settled == old(self).settled,
            final(self).reach == old(self).reach,
            final(self).accumulator == old(self).accumulator,
            final(self).open == old(self).open,
            final(self).stack@.len() == old(self).stack@.len(),
            forall|i: int| 0 <= i < final(self).stack@.len() ==> (#[trigger] final(self).stack@[i]).span == old(self).stack@[i].span,
            old(self).stack@.len() == 0 ==> final(self).resolved@ == old(self).resolved@.push(node),
            old(self).stack@.len() > 0 ==> final(self).resolved == old(self).resolved,
            old(self).stack@.len() > 0 ==> final(self).stack@.last().children@ == old(self).stack@.last().children@.push(node),
            forall|i: int| 0 <= i < old(self).stack@.len() - 1 ==> #[trigger] final(self).stack@[i] == old(self).stack@[i],
            pushed(old(self).blocks(), node, final(self).blocks()),
    {
        let ghost src = self.src@;
        let ghost settled = self.settled@;
        let ghost s = self.blocks();
        match self.stack.pop() {
            Some(open) => {
                let ghost top = open;
                let mut open = open;
                open.push_child(node);
                proof {
                    assert(stacked_ok(src, top, settled));
                    assert forall|i: int|
                        0 <= i < open.children@.len() && (#[trigger] open.children@[i]).span is Some implies open.span.unwrap().start
                        <= open.children@[i].span.unwrap().start && open.children@[i].span.unwrap().end
                        <= settled by {
                        if i < top.children@.len() {
                            assert(open.children@[i] == top.children@[i]);
                        }
                    }
                    assert(stacked_ok(src, open, settled));
                }
                self.stack.push(open);
                proof {
                    assert(self.blocks().stack.drop_last() =~= s.stack.drop_last());
                }
            },
            None => {
                self.resolved.push(node);
            },
        }
    }

    fn collect_accumulator(&mut self)
        requires
            old(self).wf(),
        ensures
            final(self).wf(),
            final(self).accumulator is None,
            final(self).src == old(self).src,
            final(self).settled == old(self).settled,
            final(self).reach == old(self).reach,
            final(self).open == old(self).open,
            final(self).stack@.len() == old(self).stack@.len(),
            forall|i: int| 0 <= i < final(self).stack@.len() ==> (#[trigger] final(self).stack@[i]).span == old(self).stack@[i].span,
            forall|i: int| 0 <= i < final(self).resolved@.len() ==> (#[trigger] final(self).resolved@[i]).span.unwrap().end
                <= old(self).settled@,
            forall|i: int| 0 <= i < old(self).stack@.len() - 1 ==> #[trigger] final(self).stack@[i] == old(self).stack@[i],
            old(self).stack@.len() > 0 ==> forall|k: int|
                0 <= k < final(self).stack@.last().children@.len() ==> {
                    ||| (k < old(self).stack@.last().children@.len() && #[trigger] final(self).stack@.last().children@[k]
                        == old(self).stack@.last().children@[k])
                    ||| (old(self).accumulator is Some && final(self).stack@.last().children@[k].span.unwrap().end
                        == accumulator_end(old(self).accumulator.unwrap()))
                },
            forall|i: int|
                0 <= i < final(self).resolved@.len() ==> {
                    ||| (i < old(self).resolved@.len() && #[trigger] final(self).resolved@[i] == old(self).resolved@[i])
                    ||| (old(self).accumulator is Some && final(self).resolved@[i].span.unwrap().end == accumulator_end(
                        old(self).accumulator.unwrap(),
                    ))
                },
            collected(old(self).blocks(), final(self).blocks()),
    {
        let ghost src = self.src@;
        let ghost s = self.blocks();
        let node = match self.accumulator.take() {
            None => {
                return;
            },
            Some(Accumulator::Table(node)) => node,
            Some(Accumulator::Resolved(node)) => node,
            Some(Accumulator::Paragraph { text, attributes, span }) => {
                let ghost attrs = attributes@;
                let mut node = Node::empty(NodeKind::Paragraph).at(span);
                node.push_child(Node::raw(string_from(text.as_slice())));
                let mut attributes = attributes;
                node.children.append(&mut attributes);
                proof {
                    let raw = node.children@[0];
                    assert(raw.unplaced());
                    lemma_unplaced_tree_in(raw, src);
                    assert forall|i: int| 0 <= i < node.children@.len() implies (#[trigger] node.children@[i]).tree_in(src) by {
                        if i > 0 {
                            assert(node.children@[i] == attrs[i - 1]);
                        }
                    }
                    assert forall|i: int|
                        0 <= i < node.children@.len() && (#[trigger] node.children@[i]).kind is Attributes
                            && node.children@[i].span is Some && node.span is Some implies node.span.unwrap().covers(
                        node.children@[i].span.unwrap(),
                    ) by {
                        if i > 0 {
                            assert(node.children@[i] == attrs[i - 1]);
                        }
                    }
                    assert(node.covers_blocks(node.children@));
                    assert(node.located_in(src));
                    assert forall|i: int| 0 <= i < node.children@.len() implies (#[trigger] node.children@[i]).rows_unsplit() by {
                        if i > 0 {
                            assert(node.children@[i] == attrs[i - 1]);
                        } else {
                            assert(raw.children@.len() == 0);
                        }
                    }
                    assert(node.rows_unsplit());
                    assert forall|i: int| 0 <= i < node.children@.len() implies (#[trigger] node.children@[i]).nested() by {
                        if i > 0 {
                            assert(node.children@[i] == attrs[i - 1]);
                        } else {
                            lemma_unplaced_nested(raw);
                        }
                    }
                    assert(node.nested());
                    assert(node.children@.skip(1) =~= attrs);
                    assert(paragraph_node(text@, attrs, span, node));
                }
                node
            },
        };
        let ghost s0 = self.blocks();
        assert(s0 == Blocks { held: None, ..s });
        self.push_resolved_node(node);
        proof {
            assert(pushed(s0, node, self.blocks()));
        }
    }
}

/// A node grown to end where a later span does is still located, its
/// attribute blocks still within it.
proof fn lemma_grown(src: Seq<u8>, n: Node, m: Node, c: Span)
    requires
        n.located_in(src),
        n.covers_blocks(n.children@),
        c.describes(src),
        n.span matches Some(s) && s.start < c.end && s.end <= c.end,
        m.kind == n.kind,
        m.attributes == n.attributes,
        m.children == n.children,
        m.fence == n.fence,
        m.span == Some(n.span.unwrap().extended(c)),
        n.kind is Marker ==> n.fence is Some,
    ensures
        m.located_in(src),
        m.covers_blocks(m.children@),
        n.nested() ==> m.nested(),
{
    let s = n.span.unwrap();
    lemma_count_newlines_mono(src, s.start as int, c.end as int);
    if n.nested() {
        assert forall|i: int| 0 <= i < m.children@.len() implies (#[trigger] m.children@[i]).nested() by {
            assert(m.children@[i] == n.children@[i]);
        }
    }
}

impl Parser {
    fn text_line(&mut self, line: &[u8], span: Span)
        requires
            old(self).wf(),
            old(self).open is None,
            span.describes(old(self).src@),
            span.start > old(self).settled@,
        ensures
            final(self).wf(),
            final(self).open is None,
            final(self).src == old(self).src,
            final(self).settled@ == span.end,
            final(self).reach@ == span.end,
            text_added(old(self).blocks(), line@, span, final(self).blocks()),
    {
        let ghost src = self.src@;
        let ghost old_settled = self.settled@;
        let ghost s = self.blocks();
        assert(self.accumulator is Some ==> accumulator_end(self.accumulator.unwrap()) <= old_settled);
        self.settle(Ghost(span.end as int));
        match self.accumulator.take() {
            Some(Accumulator::Paragraph { text, attributes, span: paragraph }) => {
                let mut text = text;
                text.push(SPACE);
                push_bytes(&mut text, line);
                let extended = paragraph.extend(span);
                proof {
                    crate::span::lemma_extended_describes(paragraph, span, src);
                    assert forall|i: int| 0 <= i < attributes@.len() implies {
                        &&& (#[trigger] attributes@[i]).span is Some
                        &&& extended.covers(attributes@[i].span.unwrap())
                        &&& attributes@[i].kind is Attributes
                    } by {
                        assert(paragraph.covers(attributes@[i].span.unwrap()));
                    }
                }
                self.accumulator = Some(Accumulator::Paragraph { text, attributes, span: extended });
                proof {
                    assert(self.blocks() =~= Blocks {
                        held: Some(Held::Paragraph { text: s.held.unwrap()->Paragraph_text.push(SPACE) + line@, attributes: attributes@, span: extended }),
                        ..s
                    });
                }
            },
            other => {
                self.accumulator = other;
                self.collect_accumulator();
                let ghost m = self.blocks();
                let mut text: Vec<u8> = Vec::new();
                push_bytes(&mut text, line);
                let attributes: Vec<Node> = Vec::new();
                self.accumulator = Some(Accumulator::Paragraph { text, attributes, span });
                proof {
                    assert(text@ =~= line@);
                    assert(Blocks { held: None, ..self.blocks() } == m);
                    assert(attributes@ =~= Seq::<Node>::empty());
                }
            },
        }
    }

    fn row_line(&mut self, node: Node)
        requires
            old(self).wf(),
            old(self).open is None,
            node.tree_in(old(self).src@),
            node.kind is Delimiter,
            node.children@.len() <= 1,
            node.rows_unsplit(),
            node.nested(),
            node.span matches Some(s) && s.start > old(self).settled@,
        ensures
            final(self).wf(),
            final(self).open is None,
            final(self).src == old(self).src,
            final(self).settled@ == node.span.unwrap().end,
            final(self).reach@ == node.span.unwrap().end,
            row_added(old(self).blocks(), node, final(self).blocks()),
    {
        let ghost src = self.src@;
        let ghost old_settled = self.settled@;
        let ghost start = self.blocks();
        let ghost row = node;
        let s = node.span.unwrap();
        assert(self.accumulator is Some ==> accumulator_end(self.accumulator.unwrap()) <= old_settled);
        self.settle(Ghost(s.end as int));
        match self.accumulator.take() {
            Some(Accumulator::Table(table)) => {
                let ghost t = table;
                let mut table = table;
                table.extend_to(Some(s));
                let ghost grown = table;
                proof {
                    lemma_grown(src, t, grown, s);
                }
                table.push_child(node);
                proof {
                    assert forall|i: int| 0 <= i < table.children@.len() implies (#[trigger] table.children@[i]).tree_in(src) by {
                        if i < t.children@.len() {
                            assert(table.children@[i] == t.children@[i]);
                        }
                    }
                    assert(table.covers_blocks(table.children@)) by {
                        assert forall|i: int|
                            0 <= i < table.children@.len() && (#[trigger] table.children@[i]).kind is Attributes
                                && table.children@[i].span is Some && table.span is Some implies table.span.unwrap().covers(
                            table.children@[i].span.unwrap(),
                        ) by {
                            assert(table.children@[i] == grown.children@[i]);
                        }
                    }
                }
                self.accumulator = Some(Accumulator::Table(table));
                proof {
                    assert(grown_with(t, t.fence, row.span, row, table));
                }
            },
            other => {
                self.accumulator = other;
                self.collect_accumulator();
                let ghost m = self.blocks();
                let mut table = Node::empty(NodeKind::Table);
                table.span = Some(s);
                table.push_child(node);
                proof {
                    assert(table.children@[0] == node);
                    assert(table.covers_blocks(table.children@));
                    assert(table.children@ =~= seq![row]);
                }
                self.accumulator = Some(Accumulator::Table(table));
                proof {
                    assert(Blocks { held: None, ..self.blocks() } == m);
                }
            },
        }
    }

    /// The attribute node of an ``attr: block goes to the construct directly
    /// above it: the accumulator, else the innermost open block; with
    /// neither, the document owns it.
    fn push_attribute_node(&mut self, node: Node)
        requires
            old(self).wf(),
            old(self).open is None,
            node.kind is Attributes,
            node.children@.len() == 0,
            node.tree_in(old(self).src@),
            node.span matches Some(b) && b.end <= old(self).settled@ && old(self).held_before(
                b.start as int,
            ),
        ensures
            final(self).wf(),
            final(self).open is None,
            final(self).src == old(self).src,
            final(self).settled == old(self).settled,
            final(self).reach == old(self).reach,
            block_attached(old(self).blocks(), node, final(self).blocks()),
    {
        let ghost src = self.src@;
        let ghost settled = self.settled@;
        let ghost start = self.blocks();
        let ghost block = node;
        let b = node.span.unwrap();
        proof {
            lemma_leaves_unsplit(node);
        }
        match self.accumulator.take() {
            Some(Accumulator::Paragraph { text, attributes, span }) => {
                let ghost old_attributes = attributes@;
                let mut attributes = attributes;
                let extended = span.extend(b);
                proof {
                    crate::span::lemma_extended_describes(span, b, src);
                }
                attributes.push(node);
                proof {
                    assert forall|i: int| 0 <= i < attributes@.len() implies {
                        &&& (#[trigger] attributes@[i]).span is Some
                        &&& extended.covers(attributes@[i].span.unwrap())
                        &&& attributes@[i].kind is Attributes
                    } by {
                        if i < old_attributes.len() {
                            assert(attributes@[i] == old_attributes[i]);
                            assert(span.covers(old_attributes[i].span.unwrap()));
                        }
                    }
                    assert forall|i: int| 0 <= i < attributes@.len() implies (#[trigger] attributes@[i]).tree_in(src) by {
                        if i < old_attributes.len() {
                            assert(attributes@[i] == old_attributes[i]);
                        }
                    }
                }
                self.accumulator = Some(Accumulator::Paragraph { text, attributes, span: extended });
                proof {
                    assert(self.blocks() =~= Blocks {
                        held: Some(Held::Paragraph { text: text@, attributes: old_attributes.push(block), span: span.extended(b) }),
                        ..start
                    });
                }
            },
            Some(Accumulator::Table(parent)) => {
                let ghost p = parent;
                let mut parent = parent;
                parent.extend_to(Some(b));
                let ghost grown = parent;
                proof {
                    lemma_grown(src, p, grown, b);
                }
                parent.push_child(node);
                proof {
                    assert forall|i: int| 0 <= i < parent.children@.len() implies (#[trigger] parent.children@[i]).tree_in(src) by {
                        if i < p.children@.len() {
                            assert(parent.children@[i] == p.children@[i]);
                        }
                    }
                    assert(parent.covers_blocks(parent.children@)) by {
                        assert forall|i: int|
                            0 <= i < parent.children@.len() && (#[trigger] parent.children@[i]).kind is Attributes
                                && parent.children@[i].span is Some && parent.span is Some implies parent.span.unwrap().covers(
                            parent.children@[i].span.unwrap(),
                        ) by {
                            if i < p.children@.len() {
                                assert(parent.children@[i] == grown.children@[i]);
                            }
                        }
                    }
                    assert(parent.nested()) by {
                        assert(grown.nested());
                        assert forall|i: int| 0 <= i < parent.children@.len() implies (#[trigger] parent.children@[i]).nested() by {
                            if i < p.children@.len() {
                                assert(parent.children@[i] == grown.children@[i]);
                            }
                        }
                        assert forall|i: int|
                            0 <= i < parent.children@.len() && (#[trigger] parent.children@[i]).span is Some && parent.span is Some implies parent.span.unwrap().covers(
                            parent.children@[i].span.unwrap(),
                        ) by {
                            if i < p.children@.len() {
                                assert(parent.children@[i] == grown.children@[i]);
                            }
                        }
                    }
                }
                self.accumulator = Some(Accumulator::Table(parent));
                proof {
                    assert(grown_with(p, p.fence, block.span, block, parent));
                }
            },
            Some(Accumulator::Resolved(parent)) => {
                let ghost p = parent;
                let mut parent = parent;
                // The marker was written on one line and is about to stop
                // being one line, so it needs its own line recorded: that is
                // what `fence` is for.
                if parent.fence.is_none() {
                    parent.fence = parent.span;
                    proof {
                        let s = p.span.unwrap();
                        lemma_count_newlines_mono(src, s.start as int, s.end as int);
                    }
                }
                let ghost fenced = parent;
                parent.extend_to(Some(b));
                let ghost grown = parent;
                proof {
                    assert(fenced.located_in(src));
                    assert(fenced.covers_blocks(fenced.children@));
                    lemma_grown(src, fenced, grown, b);
                }
                parent.push_child(node);
                proof {
                    assert forall|i: int| 0 <= i < parent.children@.len() implies (#[trigger] parent.children@[i]).tree_in(src) by {
                        if i < p.children@.len() {
                            assert(parent.children@[i] == p.children@[i]);
                        }
                    }
                    assert(parent.covers_blocks(parent.children@)) by {
                        assert forall|i: int|
                            0 <= i < parent.children@.len() && (#[trigger] parent.children@[i]).kind is Attributes
                                && parent.children@[i].span is Some && parent.span is Some implies parent.span.unwrap().covers(
                            parent.children@[i].span.unwrap(),
                        ) by {
                            if i < p.children@.len() {
                                assert(parent.children@[i] == grown.children@[i]);
                            }
                        }
                    }
                    assert(parent.nested()) by {
                        assert(fenced.nested());
                        assert(grown.nested());
                        assert forall|i: int| 0 <= i < parent.children@.len() implies (#[trigger] parent.children@[i]).nested() by {
                            if i < p.children@.len() {
                                assert(parent.children@[i] == grown.children@[i]);
                            }
                        }
                        assert forall|i: int|
                            0 <= i < parent.children@.len() && (#[trigger] parent.children@[i]).span is Some && parent.span is Some implies parent.span.unwrap().covers(
                            parent.children@[i].span.unwrap(),
                        ) by {
                            if i < p.children@.len() {
                                assert(parent.children@[i] == grown.children@[i]);
                            }
                        }
                    }
                }
                self.accumulator = Some(Accumulator::Resolved(parent));
                proof {
                    assert(grown_with(p, if p.fence is None { p.span } else { p.fence }, block.span, block, parent));
                }
            },
            None => {
                self.push_resolved_node(node);
            },
        }
    }
}

impl Parser {
    /// Closes the innermost open block if `node`, a line alone with a marker
    /// or delimiter and no attributes, is the same kind of block.
    #[verifier::rlimit(30)]
    fn pop_stack(&mut self, node: &Node) -> (closed: bool)
        requires
            old(self).wf(),
            old(self).open is None,
            old(self).accumulator is None,
            node.span matches Some(s) && s.describes(old(self).src@) && s.start > old(self).settled@,
        ensures
            closed ==> {
                &&& final(self).wf()
                &&& final(self).open is None
                &&& final(self).src == old(self).src
                &&& final(self).settled@ == node.span.unwrap().end
                &&& final(self).reach@ == node.span.unwrap().end
            },
            !closed ==> *final(self) == *old(self),
            closed == closes_top(old(self).blocks(), *node),
            closed ==> top_closed(old(self).blocks(), *node, final(self).blocks()),
    {
        let ghost start = self.blocks();
        let n = self.stack.len();
        if node.attributes.is_some() || n == 0 {
            return false;
        }
        if !same_block_kind(&self.stack[n - 1].kind, &node.kind) {
            return false;
        }
        let ghost src = self.src@;
        let ghost old_settled = self.settled@;
        let s = node.span.unwrap();
        assert(stacked_ok(src, self.stack@[n - 1], old_settled));
        self.settle(Ghost(s.end as int));
        let closed = self.stack.pop().unwrap();
        let ghost c = closed;
        let mut closed = closed;
        // the closing fence line ends the block; `fence` keeps the opening one
        closed.extend_to(Some(s));
        proof {
            let top = c.span.unwrap();
            assert forall|i: int|
                0 <= i < closed.children@.len() && (#[trigger] closed.children@[i]).kind is Attributes
                    && closed.children@[i].span is Some && closed.span is Some implies closed.span.unwrap().covers(
                closed.children@[i].span.unwrap(),
            ) by {
                assert(closed.children@[i] == c.children@[i]);
            }
            lemma_count_newlines_mono(src, top.start as int, s.end as int);
            assert(closed.located_in(src));
            assert(grown(c, node.span, closed));
            assert(self.blocks() =~= Blocks { stack: start.stack.drop_last(), ..start });
        }
        let ghost s0 = self.blocks();
        self.push_resolved_node(closed);
        proof {
            assert(pushed(s0, closed, self.blocks()));
        }
        true
    }

    /// A marker or delimiter alone on its line: closes the innermost block
    /// of its kind, or opens a block; a closing-only delimiter with nothing
    /// to close is text.
    fn push_stack(&mut self, node: Node, line: &[u8], span: Span)
        requires
            old(self).wf(),
            old(self).open is None,
            old(self).accumulator is None,
            node.located_in(old(self).src@),
            node.span == Some(span),
            span.describes(old(self).src@),
            span.start > old(self).settled@,
            node.kind is Marker || node.kind is Delimiter,
            node.kind is Marker ==> node.fence is Some,
            node.children@.len() == 0,
            node.attributes matches Some(a) ==> a.blocks@.len() == 0,
        ensures
            final(self).wf(),
            final(self).open is None,
            final(self).src == old(self).src,
            final(self).settled@ == span.end,
            final(self).reach@ == span.end,
            stack_line(old(self).blocks(), node, line@, span, final(self).blocks()),
    {
        let ghost start = self.blocks();
        let (is_opener, is_closer) = match &node.kind {
            NodeKind::Delimiter(delimiter) => {
                let closer = delimiter.closes_bytes(line);
                (!closer || delimiter.is_symmetric(), closer)
            },
            _ => (true, true),
        };
        assert(is_opener == crate::block::step::is_opener(node, line@));
        assert(is_closer == crate::block::step::is_closer(node, line@));
        if is_closer && self.pop_stack(&node) {
            return;
        }
        if is_opener {
            let ghost src = self.src@;
            self.settle(Ghost(span.end as int));
            proof {
                assert(stacked_ok(src, node, span.end as int));
            }
            self.stack.push(node);
            proof {
                assert(self.blocks() =~= Blocks { stack: start.stack.push(node), ..start });
            }
        } else {
            self.text_line(line, span);
        }
    }

    fn open_block(&mut self, node: Node, line: &[u8])
        requires
            old(self).wf(),
            old(self).open is None,
            node.kind == NodeKind::Delimiter(Delimiter::Verbatim),
            node.located_in(old(self).src@),
            node.fence is None,
            all_unplaced(node.children@),
            forall|i: int| 0 <= i < node.children@.len() ==> (#[trigger] node.children@[i]).children@.len() == 0,
            node.span matches Some(s) && s.start > old(self).settled@,
        ensures
            final(self).wf(),
            final(self).open is Some,
            final(self).src == old(self).src,
            final(self).settled == old(self).settled,
            final(self).reach@ == node.span.unwrap().end,
            block_opened(old(self).blocks(), node, line@, final(self).blocks()),
    {
        // the accumulator parents an ``attr: block that interrupts it, so it
        // stays open across the block
        if !owned_is_attribute_chain(&node.attributes) {
            self.collect_accumulator();
        }
        let ghost m = self.blocks();
        let s = node.span.unwrap();
        self.open = Some(Open { node, indent: indent(line) });
        self.reach = Ghost(s.end as int);
        proof {
            assert(Blocks { open: None, ..self.blocks() } == m);
        }
    }

    /// An ``attr: block resolves to an attribute node rather than a verbatim
    /// block; a body that is not valid KDL stays verbatim.
    fn close_open(&mut self, closing: Span)
        requires
            old(self).wf(),
            old(self).open is Some,
            closing.describes(old(self).src@),
            closing.start > old(self).reach@,
        ensures
            final(self).wf(),
            final(self).open is None,
            final(self).src == old(self).src,
            final(self).settled@ == closing.end,
            final(self).reach@ == closing.end,
            verbatim_closed(old(self).blocks(), closing, final(self).blocks()),
    {
        let ghost src = self.src@;
        let ghost old_settled = self.settled@;
        let ghost before = self.blocks();
        let open = self.open.take().unwrap();
        let Open { node, .. } = open;
        let ghost o = node;
        assert(open_ok(src, o, old_settled, self.reach@));
        let ghost start = o.span.unwrap().start;
        assert(self.accumulator is Some ==> accumulator_end(self.accumulator.unwrap()) <= old_settled);
        assert forall|i: int| 0 <= i < self.stack@.len() implies (#[trigger] self.stack@[i]).span.unwrap().end < start by {
            assert(stacked_ok(src, self.stack@[i], old_settled));
        }
        self.settle(Ghost(closing.end as int));
        assert(self.held_before(start as int));
        let mut node = node;
        // opening fence line through closing fence line, inclusive
        node.extend_to(Some(closing));
        proof {
            crate::span::lemma_extended_describes(o.span.unwrap(), closing, src);
            lemma_count_newlines_mono(src, start as int, closing.end as int);
            assert(node.located_in(src));
            assert forall|i: int| 0 <= i < node.children@.len() implies (#[trigger] node.children@[i]).tree_in(src) by {
                lemma_unplaced_tree_in(node.children@[i], src);
            }
            assert(node.covers_blocks(node.children@));
        }
        let ghost s0 = self.blocks();
        assert(s0 == Blocks { open: None, ..before });
        // the text is only collected once the chain marks the block
        let attributes = if owned_is_attribute_chain(&node.attributes) {
            let text = node.raw_text();
            proof {
                vstd::utf8::encode_utf8_decode_utf8(text@);
            }
            match parse_attribute_block(text.as_str()) {
                Ok(a) => Some(a),
                Err(_) => None,
            }
        } else {
            None
        };
        assert(attributes == read_body(o));
        match attributes {
            None => {
                // an accumulator the block interrupted is flushed ahead of it
                self.collect_accumulator();
                let ghost m = self.blocks();
                proof {
                    lemma_leaves_unsplit(node);
                    lemma_unplaced_children_nested(node);
                }
                self.push_resolved_node(node);
                proof {
                    assert(collected(s0, m) && grown(o, Some(closing), node) && pushed(m, node, self.blocks()));
                }
            },
            Some(attributes) => {
                let mut block = Node::attributes(attributes);
                // A span is what marks this as a block-form ``attr: block; the
                // inline pass mints attribute nodes too, and those stay
                // span-less.
                block.span = node.span;
                proof {
                    assert(block.located_in(src));
                    assert(block.covers_blocks(block.children@));
                }
                self.push_attribute_node(block);
                proof {
                    assert(block_attached(s0, block, self.blocks()));
                }
            },
        }
    }
}

/// Where `b` first stands in `s`.
pub open spec fn first_pos(s: Seq<u8>, b: u8, i: int) -> Option<int>
    decreases s.len() - i,
{
    if i < 0 || i >= s.len() {
        None
    } else if s[i] == b {
        Some(i)
    } else {
        first_pos(s, b, i + 1)
    }
}

/// `s` without its first backslash.
fn without_first_backslash(s: &[u8]) -> (r: Vec<u8>)
    ensures
        match first_pos(s@, BACKSLASH, 0) {
            Some(i) => r@ == s@.take(i) + s@.skip(i + 1),
            None => r@ == s@,
        },
{
    let mut i: usize = 0;
    while i < s.len() && s[i] != BACKSLASH
        invariant
            i <= s.len(),
            first_pos(s@, BACKSLASH, 0) == first_pos(s@, BACKSLASH, i as int),
        decreases s.len() - i,
    {
        i = i + 1;
    }
    let mut r: Vec<u8> = Vec::new();
    push_bytes(&mut r, &s[0..i]);
    if i < s.len() {
        push_bytes(&mut r, &s[i + 1..s.len()]);
    }
    proof {
        assert(s@.subrange(0, i as int) =~= s@.take(i as int));
        if i < s.len() {
            assert(s@.subrange(i + 1, s.len() as int) =~= s@.skip(i + 1));
        } else {
            assert(s@.take(i as int) =~= s@);
        }
    }
    r
}

/// A line of the source, with any part of its leading whitespace left off,
/// is a span that describes the source where the rest is not empty.
proof fn lemma_line_describes(src: Seq<u8>, line: Seq<u8>, span: Span, lead: int)
    requires
        line_in(src, line, span),
        0 <= lead < line.len(),
    ensures
        (Span { start: (span.start + lead) as usize, ..span }).describes(src),
        forall|k: int| 0 <= k < line.len() ==> src[span.start + k] == #[trigger] line[k],
{
    assert forall|k: int| 0 <= k < line.len() implies src[span.start + k] == #[trigger] line[k] by {
        assert(src.subrange(span.start as int, span.end as int)[k] == src[span.start + k]);
    }
    assert(src[span.end - 1] == line[line.len() - 1]);
    assert forall|k: int| span.start <= k < span.end implies src[k] != LF by {
        assert(src[k] == line[k - span.start]);
    }
    lemma_count_newlines_flat(src, span.start as int, span.start + lead);
    lemma_count_newlines_flat(src, span.start as int, span.end as int);
}

/// The trimmed line stands in the source after the line's leading whitespace.
proof fn lemma_trimmed(line: Seq<u8>)
    ensures
        trim_spec(line).len() > 0 ==> leading_ws(line) < line.len(),
        leading_ws(line) + trim_spec(line).len() <= line.len(),
        forall|k: int| 0 <= k < trim_spec(line).len() ==> #[trigger] trim_spec(line)[k] == line[leading_ws(line) + k],
{
    lemma_leading_ws(line);
    let t = trim_start_spec(line);
    lemma_trailing_ws(t);
}

/// The run of a marker byte that opens the trimmed line is its run in the
/// source: after the trimmed line come only whitespace and the line's end.
proof fn lemma_run_in_source(src: Seq<u8>, line: Seq<u8>, span: Span, b: u8)
    requires
        line_in(src, line, span),
        trim_spec(line).len() > 0,
        !is_ws(b),
        b != LF,
        b != CR,
    ensures
        leading_run(src.skip(span.start + leading_ws(line)), b) == leading_run(trim_spec(line), b),
{
    let lead = leading_ws(line) as int;
    let t = trim_spec(line);
    let s = src.skip(span.start + lead);
    let n = leading_run(t, b) as int;
    lemma_trimmed(line);
    lemma_leading_run(t, b);
    lemma_line_describes(src, line, span, lead);
    assert forall|k: int| 0 <= k < n implies s[k] == b by {
        assert(s[k] == src[span.start + (lead + k)]);
        assert(src[span.start + (lead + k)] == line[lead + k]);
        assert(t[k] == line[lead + k]);
    }
    if n < t.len() {
        assert(s[n] == src[span.start + (lead + n)]);
        assert(t[n] == line[lead + n]);
    } else if lead + n < line.len() {
        let ts = trim_start_spec(line);
        lemma_trailing_ws(ts);
        assert(ts[n] == line[lead + n]);
        assert(s[n] == src[span.start + (lead + n)]);
    } else {
        assert(span.start + lead + n == span.end);
    }
    lemma_leading_run_is(s, b, n);
}

impl Parser {
    /// Takes one line of the source: `span` locates `line`, which holds no
    /// line terminator.
    #[verifier::rlimit(60)]
    pub(crate) fn feed(&mut self, line: &[u8], span: Span)
        requires
            old(self).wf(),
            line_in(old(self).src@, line@, span),
            span.start > old(self).reach@,
        ensures
            final(self).wf(),
            final(self).src == old(self).src,
            old(self).reach@ <= final(self).reach@ <= span.end,
            line@.len() == 0 ==> final(self).reach == old(self).reach,
            fed(old(self).blocks(), line@, span, final(self).blocks()),
    {
        let ghost src = self.src@;
        let ghost start = self.blocks();
        if self.open.is_some() {
            if is_verbatim_close(line) {
                proof {
                    lemma_trimmed(line@);
                    lemma_line_describes(src, line@, span, 0);
                    assert((Span { start: (span.start + 0) as usize, ..span }) == span);
                }
                return self.close_open(span);
            }
            let mut open = self.open.take().unwrap();
            let content = dedent(line, open.indent);
            let rest = trim_start(line);
            let escaped = rest.len() >= 3 && rest[0] == BACKSLASH && rest[1] == BACKTICK && rest[2] == BACKTICK;
            let raw = if escaped {
                without_first_backslash(content)
            } else {
                let mut copy: Vec<u8> = Vec::new();
                push_bytes(&mut copy, content);
                copy
            };
            let ghost before = open.node;
            proof {
                assert(raw@ == verbatim_line(line@, open.indent as int));
            }
            open.node.push_child(Node::raw(string_from(raw.as_slice())));
            proof {
                assert forall|i: int| 0 <= i < open.node.children@.len() implies (#[trigger] open.node.children@[i]).unplaced()
                    && open.node.children@[i].children@.len() == 0 by {
                    if i < before.children@.len() {
                        assert(open.node.children@[i] == before.children@[i]);
                    }
                }
            }
            self.open = Some(open);
            return;
        }
        let ghost trimmed_view = trim_spec(line@);
        let trimmed = trim(line);
        let lead = indent(line);
        proof {
            lemma_trimmed(line@);
        }
        // A span begins at the node's own syntax, so indentation is not part
        // of it. The end stays where the line does, trailing spaces included.
        let adjusted = Span { start: span.start + lead, end: span.end, start_line: span.start_line, end_line: span.end_line };
        proof {
            if trimmed.len() > 0 {
                lemma_line_describes(src, line@, span, lead as int);
                assert forall|k: int| 0 <= k < trimmed@.len() implies src[adjusted.start + k] == #[trigger] trimmed@[k] by {
                    assert(trimmed@[k] == line@[lead + k]);
                    assert(src[span.start + (lead + k)] == line@[lead + k]);
                }
            }
        }
        let class = classify(trimmed, adjusted);
        let ghost cl = class;
        assert(adjusted == Span { start: (span.start + leading_ws(line@)) as usize, ..span });
        match class {
            // Paragraph and Table end on an empty line
            Line::Blank => {
                self.collect_accumulator();
                assert(line_fed(start, cl, line@, trimmed@, adjusted, self.blocks()));
            },
            Line::Resolved(node) => {
                self.collect_accumulator();
                let ghost m = self.blocks();
                self.settle(Ghost(adjusted.end as int));
                proof {
                    assert(src[adjusted.start + 0] == trimmed@[0]);
                    lemma_run_in_source(src, line@, span, trimmed@[0]);
                    lemma_leading_run(trimmed@, trimmed@[0]);
                    assert(node.kind matches NodeKind::Marker(m) && m.depth == leading_run(trimmed@, trimmed@[0]));
                    assert(node.located_in(src));
                    assert forall|i: int| 0 <= i < node.children@.len() implies (#[trigger] node.children@[i]).tree_in(src) by {
                        lemma_unplaced_tree_in(node.children@[i], src);
                    }
                    assert(node.covers_blocks(node.children@));
                    lemma_leaves_unsplit(node);
                    lemma_unplaced_children_nested(node);
                }
                self.accumulator = Some(Accumulator::Resolved(node));
                proof {
                    assert(Blocks { held: None, ..self.blocks() } == m);
                    assert(line_fed(start, cl, line@, trimmed@, adjusted, self.blocks()));
                }
            },
            Line::Verbatim(node) => {
                proof {
                    assert(src[adjusted.start + 0] == trimmed@[0]);
                    assert(src[adjusted.start + 1] == trimmed@[1]);
                }
                self.open_block(node, line);
                assert(line_fed(start, cl, line@, trimmed@, adjusted, self.blocks()));
            },
            Line::Block(node) => {
                proof {
                    assert(src[adjusted.start + 0] == trimmed@[0]);
                    if node.kind is Delimiter {
                        assert(src[adjusted.start + 1] == trimmed@[1]);
                    } else {
                        lemma_run_in_source(src, line@, span, trimmed@[0]);
                        lemma_leading_run(trimmed@, trimmed@[0]);
                        assert(node.kind matches NodeKind::Marker(m) && m.depth == leading_run(trimmed@, trimmed@[0]));
                    }
                    assert(node.located_in(src));
                    lemma_leaves_unsplit(node);
                    lemma_unplaced_children_nested(node);
                }
                self.collect_accumulator();
                let ghost m = self.blocks();
                self.push_stack(node, trimmed, adjusted);
                proof {
                    assert(collected(start, m) && stack_line(m, node, trimmed@, adjusted, self.blocks()));
                    assert(line_fed(start, cl, line@, trimmed@, adjusted, self.blocks()));
                }
            },
            Line::Row(node) => {
                proof {
                    assert(src[adjusted.start + 0] == trimmed@[0]);
                    assert(src[adjusted.start + 1] == trimmed@[1]);
                    assert(node.located_in(src));
                    assert forall|i: int| 0 <= i < node.children@.len() implies (#[trigger] node.children@[i]).tree_in(src) by {
                        lemma_unplaced_tree_in(node.children@[i], src);
                    }
                    assert(node.covers_blocks(node.children@));
                    lemma_leaves_unsplit(node);
                    lemma_unplaced_children_nested(node);
                }
                self.row_line(node);
                assert(line_fed(start, cl, line@, trimmed@, adjusted, self.blocks()));
            },
            Line::Text => {
                self.text_line(trimmed, adjusted);
                assert(line_fed(start, cl, line@, trimmed@, adjusted, self.blocks()));
            },
        }
        proof {
            assert(line_class(trimmed@, adjusted, cl));
        }
    }

    /// `last` is the final line of the document that has something on it:
    /// where anything still open ends.
    pub(crate) fn close(self, last: Option<Span>) -> (nodes: Vec<Node>)
        requires
            self.wf(),
            last matches Some(l) ==> l.describes(self.src@) && l.end >= self.reach@,
            last is None ==> self.reach@ == -1,
        ensures
            trees_in(self.src@, nodes@),
            blocks_in_order(nodes@),
            spans_ordered(nodes@),
            all_rows_unsplit(nodes@),
            all_nested(nodes@),
            forall|i: int| 0 <= i < nodes@.len() ==> (#[trigger] nodes@[i]).span is Some && !(nodes@[i].kind is Raw),
            finished(self.blocks(), last, nodes@),
    {
        let ghost src = self.src@;
        let ghost start = self.blocks();
        let mut p = self;
        p.collect_accumulator();
        let ghost m = p.blocks();
        let ghost to: int = match last {
            Some(l) => l.end as int,
            None => -1,
        };
        // an unclosed ``attr: block stays verbatim: prose lines are valid KDL
        // nodes, so consuming it would swallow the rest of the document
        let open = p.open.take();
        match open {
            Some(open) => {
                let ghost o = open.node;
                assert(open_ok(src, o, p.settled@, p.reach@));
                let mut node = open.node;
                p.settle(Ghost(to));
                node.extend_to(last);
                proof {
                    let s = o.span.unwrap();
                    let l = last.unwrap();
                    crate::span::lemma_extended_describes(s, l, src);
                    lemma_count_newlines_mono(src, s.start as int, l.end as int);
                    assert(node.located_in(src));
                    assert forall|i: int| 0 <= i < node.children@.len() implies (#[trigger] node.children@[i]).tree_in(src) by {
                        lemma_unplaced_tree_in(node.children@[i], src);
                    }
                    assert(node.covers_blocks(node.children@));
                    lemma_leaves_unsplit(node);
                    lemma_unplaced_children_nested(node);
                }
                let ghost m0 = p.blocks();
                assert(m0 == Blocks { open: None, ..m });
                p.push_resolved_node(node);
                proof {
                    assert(grown(o, last, node) && pushed(m0, node, p.blocks()));
                }
            },
            None => {
                p.settle(Ghost(to));
                assert(p.blocks() == m);
            },
        }
        let ghost mid = p.blocks();
        while p.stack.len() > 0
            invariant
                p.wf(),
                p.open is None,
                p.accumulator is None,
                p.src@ == src,
                p.settled@ == to,
                last matches Some(l) ==> l.describes(src) && to == l.end,
                last is None ==> to == -1,
                forall|r: Seq<Node>| #![trigger unwound(p.blocks(), last, r)] unwound(p.blocks(), last, r) ==> unwound(mid, last, r),
            decreases p.stack@.len(),
        {
            let ghost here = p.blocks();
            let top = p.stack.pop().unwrap();
            let ghost t = top;
            assert(stacked_ok(src, t, to));
            let mut top = top;
            top.extend_to(last);
            proof {
                let s = t.span.unwrap();
                let l = last.unwrap();
                lemma_count_newlines_mono(src, s.start as int, l.end as int);
                assert forall|i: int|
                    0 <= i < top.children@.len() && (#[trigger] top.children@[i]).kind is Attributes
                        && top.children@[i].span is Some && top.span is Some implies top.span.unwrap().covers(
                    top.children@[i].span.unwrap(),
                ) by {
                    assert(top.children@[i] == t.children@[i]);
                }
                assert(top.located_in(src));
            }
            let ghost s0 = p.blocks();
            assert(s0 == Blocks { stack: here.stack.drop_last(), ..here });
            p.push_resolved_node(top);
            proof {
                let t2 = p.blocks();
                assert(grown(t, last, top) && pushed(s0, top, t2) && t2.stack.len() < here.stack.len());
                assert forall|r: Seq<Node>| #![trigger unwound(t2, last, r)] unwound(t2, last, r) implies unwound(mid, last, r) by {
                    assert(unwound(here, last, r));
                }
            }
        }
        proof {
            assert(unwound(p.blocks(), last, p.resolved@));
            assert(unwound(mid, last, p.resolved@));
        }
        p.resolved
    }
}

} // verus!
