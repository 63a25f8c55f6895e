//! What each step of the block pass does to what the parser holds: the
//! nodes finished at the root, the blocks still open, the paragraph, table
//! or single-line marker held back for the next line, and an open verbatim
//! block with its indent.

use vstd::prelude::*;
use vstd::utf8::*;

use crate::block::line::{line_class, Line};
use crate::block::parser::first_pos;
use crate::node::attribute::{all_blockless, Attribute};
use crate::node::kdl::kdl_document;
use crate::node::tree::{join_lines, leading_run, raw_texts, same_kind, Node, NodeKind};
use crate::span::Span;
use crate::text::{lossy_utf8, starts_with_pair, BACKSLASH, BACKTICK, CR, LF, SPACE};
use crate::whitespace::{leading_ws, trim_spec, trim_start_spec};

verus! {

/// What the block parser holds back for the next line.
pub enum Held {
    Paragraph { text: Seq<u8>, attributes: Seq<Node>, span: Span },
    Table(Node),
    Resolved(Node),
}

/// Everything the block parser holds between two lines.
#[verifier::ext_equal]
pub struct Blocks {
    pub resolved: Seq<Node>,
    pub stack: Seq<Node>,
    pub held: Option<Held>,
    /// An open verbatim block and the indent of its opening line.
    pub open: Option<(Node, int)>,
}

/// The state before the first line.
pub open spec fn no_blocks() -> Blocks {
    Blocks { resolved: Seq::empty(), stack: Seq::empty(), held: None, open: None }
}

/// The span `s` grown to end where `c` does, where both are there.
pub open spec fn grown_span(s: Option<Span>, c: Option<Span>) -> Option<Span> {
    match (s, c) {
        (Some(s), Some(c)) => Some(s.extended(c)),
        _ => s,
    }
}

/// `n` is `m` with `child` added as its last child.
pub open spec fn with_child(m: Node, child: Node, n: Node) -> bool {
    &&& n.kind == m.kind
    &&& n.attributes == m.attributes
    &&& n.span == m.span
    &&& n.fence == m.fence
    &&& n.children@ == m.children@.push(child)
}

/// `n` is `m` with its span grown to end where `c` does.
pub open spec fn grown(m: Node, c: Option<Span>, n: Node) -> bool {
    &&& n.kind == m.kind
    &&& n.attributes == m.attributes
    &&& n.span == grown_span(m.span, c)
    &&& n.fence == m.fence
    &&& n.children@ == m.children@
}

/// `n` is `m` with `fence`, its span grown to end where `c` does, and
/// `child` added as its last child.
pub open spec fn grown_with(m: Node, fence: Option<Span>, c: Option<Span>, child: Node, n: Node) -> bool {
    &&& n.kind == m.kind
    &&& n.attributes == m.attributes
    &&& n.span == grown_span(m.span, c)
    &&& n.fence == fence
    &&& n.children@ == m.children@.push(child)
}

/// A raw text node holding `text` and nothing else: the text as it reads,
/// which is `text` itself where that is valid UTF-8.
pub open spec fn raw_node(n: Node, text: Seq<u8>) -> bool {
    &&& n.kind matches NodeKind::Raw(t) && t@ == lossy_utf8(text) && (valid_utf8(text) ==> encode_utf8(t@) == text)
    &&& n.attributes is None
    &&& n.children@.len() == 0
    &&& n.span is None
    &&& n.fence is None
}

/// `node` goes where the parser stands: into the innermost open block, else
/// among the nodes at the root.
pub open spec fn pushed(s: Blocks, node: Node, t: Blocks) -> bool {
    &&& t.held == s.held
    &&& t.open == s.open
    &&& if s.stack.len() == 0 {
        t.resolved == s.resolved.push(node) && t.stack == s.stack
    } else {
        &&& t.resolved == s.resolved
        &&& t.stack.len() == s.stack.len()
        &&& t.stack.drop_last() == s.stack.drop_last()
        &&& with_child(s.stack.last(), node, t.stack.last())
    }
}

/// The paragraph a held paragraph becomes: its text as one raw node, then
/// the attribute blocks that interrupted it.
pub open spec fn paragraph_node(text: Seq<u8>, attributes: Seq<Node>, span: Span, n: Node) -> bool {
    &&& n.kind == NodeKind::Paragraph
    &&& n.attributes is None
    &&& n.span == Some(span)
    &&& n.fence is None
    &&& n.children@.len() == attributes.len() + 1
    &&& raw_node(n.children@[0], text)
    &&& n.children@.skip(1) == attributes
}

/// The node held back, if any, goes where the parser stands.
pub open spec fn collected(s: Blocks, t: Blocks) -> bool {
    let s0 = Blocks { held: None, ..s };
    match s.held {
        None => t == s,
        Some(Held::Table(n)) => pushed(s0, n, t),
        Some(Held::Resolved(n)) => pushed(s0, n, t),
        Some(Held::Paragraph { text, attributes, span }) => exists|n: Node|
            #![trigger pushed(s0, n, t)]
            paragraph_node(text, attributes, span, n) && pushed(s0, n, t),
    }
}

/// A line of text continues the held paragraph, joined by a space, or starts
/// one after the node held back is collected.
pub open spec fn text_added(s: Blocks, line: Seq<u8>, span: Span, t: Blocks) -> bool {
    match s.held {
        Some(Held::Paragraph { text, attributes, span: p }) => t == Blocks {
            held: Some(Held::Paragraph { text: text.push(SPACE) + line, attributes, span: p.extended(span) }),
            ..s
        },
        _ => {
            &&& collected(s, Blocks { held: None, ..t })
            &&& t.held == Some(Held::Paragraph { text: line, attributes: Seq::empty(), span })
        },
    }
}

/// A row grows the held table, or starts one, where the row starts, after
/// the node held back is collected.
pub open spec fn row_added(s: Blocks, row: Node, t: Blocks) -> bool {
    match s.held {
        Some(Held::Table(table)) => {
            &&& t.resolved == s.resolved
            &&& t.stack == s.stack
            &&& t.open == s.open
            &&& t.held matches Some(Held::Table(n)) && grown_with(table, table.fence, row.span, row, n)
        },
        _ => {
            &&& collected(s, Blocks { held: None, ..t })
            &&& t.held matches Some(Held::Table(n)) && {
                &&& n.kind == NodeKind::Table
                &&& n.attributes is None
                &&& n.span == row.span
                &&& n.fence is None
                &&& n.children@ == seq![row]
            }
        },
    }
}

/// An ``attr: block goes to the construct directly above it: the held
/// paragraph, table or marker, which grows over it (a marker keeping its own
/// line as its fence), else where the parser stands.
pub open spec fn block_attached(s: Blocks, block: Node, t: Blocks) -> bool {
    let b = block.span;
    match s.held {
        Some(Held::Paragraph { text, attributes, span }) => t == Blocks {
            held: Some(Held::Paragraph { text, attributes: attributes.push(block), span: span.extended(b.unwrap()) }),
            ..s
        },
        Some(Held::Table(p)) => {
            &&& t.resolved == s.resolved
            &&& t.stack == s.stack
            &&& t.open == s.open
            &&& t.held matches Some(Held::Table(n)) && grown_with(p, p.fence, b, block, n)
        },
        Some(Held::Resolved(p)) => {
            &&& t.resolved == s.resolved
            &&& t.stack == s.stack
            &&& t.open == s.open
            &&& t.held matches Some(Held::Resolved(n)) && grown_with(
                p,
                if p.fence is None {
                    p.span
                } else {
                    p.fence
                },
                b,
                block,
                n,
            )
        },
        None => pushed(s, block, t),
    }
}

/// A line alone with `node` closes the innermost open block where that is
/// the same kind of block and the line carries no attributes.
pub open spec fn closes_top(s: Blocks, node: Node) -> bool {
    &&& node.attributes is None
    &&& s.stack.len() > 0
    &&& same_kind(s.stack.last().kind, node.kind)
    &&& (s.stack.last().kind is Marker || s.stack.last().kind is Delimiter)
}

/// The innermost open block, grown to the closing line, goes where the
/// parser then stands.
pub open spec fn top_closed(s: Blocks, node: Node, t: Blocks) -> bool {
    let s0 = Blocks { stack: s.stack.drop_last(), ..s };
    exists|n: Node| #![trigger pushed(s0, n, t)] grown(s.stack.last(), node.span, n) && pushed(s0, n, t)
}

/// Whether a block line with `node` can close a block: a marker always, a
/// delimiter where the line starts with its closing pair.
pub open spec fn is_closer(node: Node, line: Seq<u8>) -> bool {
    match node.kind {
        NodeKind::Delimiter(d) => d.closing_spec() is Some && starts_with_pair(line, d.closing_spec().unwrap()),
        _ => true,
    }
}

/// Whether a block line with `node` can open a block: anything but a
/// delimiter line that is only its closing pair.
pub open spec fn is_opener(node: Node, line: Seq<u8>) -> bool {
    match node.kind {
        NodeKind::Delimiter(d) => !is_closer(node, line) || d.closing_spec() == Some(d.opening_spec()),
        _ => true,
    }
}

/// A block line closes the innermost open block, opens a block, or, for a
/// closing delimiter with nothing to close, is text.
pub open spec fn stack_line(s: Blocks, node: Node, line: Seq<u8>, span: Span, t: Blocks) -> bool {
    if is_closer(node, line) && closes_top(s, node) {
        top_closed(s, node, t)
    } else if is_opener(node, line) {
        t == Blocks { stack: s.stack.push(node), ..s }
    } else {
        text_added(s, line, span, t)
    }
}

/// Whether the attributes are the bare ``attr chain.
pub open spec fn marks_attributes(node: Node) -> bool {
    node.attributes matches Some(a) && a.is_attribute_chain_spec()
}

/// A verbatim block opens, after the node held back is collected unless the
/// block is an ``attr: one, which the held node will own.
pub open spec fn block_opened(s: Blocks, node: Node, line: Seq<u8>, t: Blocks) -> bool {
    let t0 = Blocks { open: None, ..t };
    &&& if marks_attributes(node) {
        t0 == s
    } else {
        collected(s, t0)
    }
    &&& t.open == Some((node, leading_ws(line) as int))
}

/// What the body of an open verbatim block reads as: the attributes of its
/// KDL where its chain marks it as an ``attr: block, else nothing.
pub open spec fn read_body(node: Node) -> Option<Vec<Attribute>> {
    if marks_attributes(node) {
        match kdl_document(decode_utf8(join_lines(raw_texts(node.children@)))) {
            Ok(attributes) => Some(attributes),
            Err(_) => None,
        }
    } else {
        None
    }
}

/// The attribute node of an ``attr: block with these attributes, at `span`;
/// none of the attributes holds nested ones that record a block.
pub open spec fn attribute_node(attributes: Vec<Attribute>, span: Option<Span>, n: Node) -> bool {
    &&& all_blockless(attributes@)
    &&& n.kind is Attributes
    &&& n.children@.len() == 0
    &&& n.span == span
    &&& n.fence is None
    &&& attributes@.len() == 0 ==> n.attributes is None
    &&& attributes@.len() != 0 ==> (n.attributes matches Some(a) && a.entries@.len() == 0 && a.children@
        == attributes@ && a.blocks@.len() == 0)
}

/// The closing line of an open verbatim block: an ``attr: block whose body
/// is KDL becomes an attribute node, attached as [`block_attached`] says;
/// any other block, grown to the closing line, goes where the parser stands
/// once the node held back is collected.
pub open spec fn verbatim_closed(s: Blocks, closing: Span, t: Blocks) -> bool {
    let o = s.open.unwrap().0;
    let s0 = Blocks { open: None, ..s };
    match read_body(o) {
        Some(attributes) => exists|b: Node|
            #![trigger block_attached(s0, b, t)]
            attribute_node(attributes, grown_span(o.span, Some(closing)), b) && block_attached(s0, b, t),
        None => exists|m: Blocks, n: Node|
            #![trigger collected(s0, m), pushed(m, n, t)]
            collected(s0, m) && grown(o, Some(closing), n) && pushed(m, n, t),
    }
}

/// A line inside a verbatim block, dedented by up to the block's indent, with
/// the backslash of an escaped fence taken out.
pub open spec fn verbatim_line(line: Seq<u8>, indent: int) -> Seq<u8> {
    let content = line.skip(
        if indent < leading_ws(line) {
            indent
        } else {
            leading_ws(line) as int
        },
    );
    let rest = trim_start_spec(line);
    if rest.len() >= 3 && rest[0] == BACKSLASH && rest[1] == BACKTICK && rest[2] == BACKTICK {
        match first_pos(content, BACKSLASH, 0) {
            Some(i) => content.take(i) + content.skip(i + 1),
            None => content,
        }
    } else {
        content
    }
}

/// What a classified line does.
pub open spec fn line_fed(s: Blocks, class: Line, line: Seq<u8>, trimmed: Seq<u8>, at: Span, t: Blocks) -> bool {
    match class {
        Line::Blank => collected(s, t),
        Line::Resolved(n) => collected(s, Blocks { held: None, ..t }) && t.held == Some(Held::Resolved(n)),
        Line::Verbatim(n) => block_opened(s, n, line, t),
        Line::Block(n) => exists|m: Blocks| #![trigger collected(s, m)] collected(s, m) && stack_line(m, n, trimmed, at, t),
        Line::Row(n) => row_added(s, n, t),
        Line::Text => text_added(s, trimmed, at, t),
    }
}

/// One line of the source, which `span` locates. Inside a verbatim block,
/// a line that is only the fence closes it, and any other is its content.
/// Elsewhere the line, trimmed and with its span starting after the
/// indentation, is classified as [`line_class`] says and does what
/// [`line_fed`] says.
pub open spec fn fed(s: Blocks, line: Seq<u8>, span: Span, t: Blocks) -> bool {
    match s.open {
        Some((o, indent)) => if trim_spec(line) == seq![BACKTICK, BACKTICK] {
            verbatim_closed(s, span, t)
        } else {
            &&& t.resolved == s.resolved
            &&& t.stack == s.stack
            &&& t.held == s.held
            &&& t.open matches Some((n, i)) && i == indent && with_child(o, n.children@.last(), n) && raw_node(
                n.children@.last(),
                verbatim_line(line, indent),
            )
        },
        None => {
            let trimmed = trim_spec(line);
            let at = Span { start: (span.start + leading_ws(line)) as usize, ..span };
            exists|class: Line|
                #![trigger line_class(trimmed, at, class)]
                line_class(trimmed, at, class) && line_fed(s, class, line, trimmed, at, t)
        },
    }
}

/// At the end, each open block, innermost first, grows to `last` and goes
/// where the parser then stands; `nodes` is what is left at the root.
pub open spec fn unwound(s: Blocks, last: Option<Span>, nodes: Seq<Node>) -> bool
    decreases s.stack.len(),
{
    if s.stack.len() == 0 {
        nodes == s.resolved
    } else {
        let s0 = Blocks { stack: s.stack.drop_last(), ..s };
        exists|n: Node, t: Blocks|
            #![trigger pushed(s0, n, t)]
            grown(s.stack.last(), last, n) && pushed(s0, n, t) && t.stack.len() < s.stack.len() && unwound(t, last, nodes)
    }
}

/// The end of the source: the node held back is collected, a verbatim block
/// still open grows to `last` and goes where the parser stands, and then the
/// open blocks unwind.
pub open spec fn finished(s: Blocks, last: Option<Span>, nodes: Seq<Node>) -> bool {
    exists|m: Blocks|
        #![trigger collected(s, m)]
        collected(s, m) && match s.open {
            Some((o, _)) => exists|n: Node, t: Blocks|
                #![trigger pushed(Blocks { open: None, ..m }, n, t)]
                grown(o, last, n) && pushed(Blocks { open: None, ..m }, n, t) && unwound(t, last, nodes),
            None => unwound(m, last, nodes),
        }
}

/// Where the first `\n` at or after `offset` stands, or the end.
pub open spec fn line_break(src: Seq<u8>, offset: int) -> int {
    match first_pos(src, LF, offset) {
        Some(p) => p,
        None => src.len() as int,
    }
}

/// Where `b` first stands from `i` on: a place holding it, with none before
/// from `i` on.
pub proof fn lemma_first_pos(s: Seq<u8>, b: u8, i: int)
    requires
        0 <= i,
    ensures
        first_pos(s, b, i) matches Some(p) ==> i <= p < s.len() && s[p] == b && forall|k: int| i <= k < p ==> s[k] != b,
        first_pos(s, b, i) is None ==> forall|k: int| i <= k < s.len() ==> s[k] != b,
    decreases s.len() - i,
{
    if i < s.len() && s[i] != b {
        lemma_first_pos(s, b, i + 1);
    }
}

/// The lines from `offset` on, the first of them numbered `index`: each up
/// to the next `\n`, without it or a `\r` before it, with the span that
/// locates it.
pub open spec fn lines_from(src: Seq<u8>, offset: int, index: int) -> Seq<(Seq<u8>, Span)>
    decreases src.len() + 1 - offset,
    via lines_from_decreases
{
    if offset < 0 || offset >= src.len() {
        Seq::empty()
    } else {
        let p = line_break(src, offset);
        let end = if p < src.len() && p > offset && src[p - 1] == CR {
            p - 1
        } else {
            p
        };
        let span = Span { start: offset as usize, end: end as usize, start_line: index as usize, end_line: index as usize };
        seq![(src.subrange(offset, end), span)] + lines_from(src, p + 1, index + 1)
    }
}

#[via_fn]
proof fn lines_from_decreases(src: Seq<u8>, offset: int, index: int) {
    if 0 <= offset < src.len() {
        lemma_first_pos(src, LF, offset);
    }
}

/// The span of the last line with something on it.
pub open spec fn last_filled(lines: Seq<(Seq<u8>, Span)>) -> Option<Span>
    decreases lines.len(),
{
    if lines.len() == 0 {
        None
    } else if lines.last().0.len() > 0 {
        Some(lines.last().1)
    } else {
        last_filled(lines.drop_last())
    }
}

/// How many bytes of a byte order mark `src` opens with.
pub open spec fn bom_len(src: Seq<u8>) -> int {
    if src.len() >= 3 && src[0] == 0xEFu8 && src[1] == 0xBBu8 && src[2] == 0xBFu8 {
        3
    } else {
        0
    }
}

/// Each line moves the parser from one state to the next.
pub open spec fn fed_all(trace: Seq<Blocks>, lines: Seq<(Seq<u8>, Span)>) -> bool {
    forall|k: int| 0 <= k < lines.len() ==> #[trigger] fed(trace[k], lines[k].0, lines[k].1, trace[k + 1])
}

/// `nodes` is the block tree of `src`: the parser, fed its lines after any
/// byte order mark, the offsets counting the mark, finishes with `nodes`.
pub open spec fn blocks_of(src: Seq<u8>, nodes: Seq<Node>) -> bool {
    let lines = lines_from(src, bom_len(src), 0);
    exists|trace: Seq<Blocks>|
        #![trigger fed_all(trace, lines)]
        trace.len() == lines.len() + 1 && trace[0] == no_blocks() && fed_all(trace, lines) && finished(
            trace.last(),
            last_filled(lines),
            nodes,
        )
}

} // verus!


verus! {

/// Where a line's span starts once its indentation is left off.
pub open spec fn indented_at(line: Seq<u8>, span: Span) -> Span {
    Span { start: (span.start + leading_ws(line)) as usize, ..span }
}

/// A blank line outside a verbatim block ends whatever was held back: the
/// paragraph, table or single-line marker goes where the parser stands, and
/// nothing is held afterwards.
pub proof fn law_blank_line_collects(s: Blocks, line: Seq<u8>, span: Span, t: Blocks)
    requires
        s.open is None,
        trim_spec(line).len() == 0,
        fed(s, line, span, t),
    ensures
        collected(s, t),
        t.held is None,
        t.open is None,
        t.stack.len() == s.stack.len(),
{
    let trimmed = trim_spec(line);
    let at = indented_at(line, span);
    let class = choose|class: Line| line_class(trimmed, at, class) && line_fed(s, class, line, trimmed, at, t);
    assert(class is Blank);
}

/// A line of text right after one joins the held paragraph: its text is the
/// old text, a space and the trimmed line, its span grows to the line, and
/// nothing else changes.
pub proof fn law_text_line_joins_paragraph(s: Blocks, line: Seq<u8>, span: Span, t: Blocks)
    requires
        s.open is None,
        s.held matches Some(Held::Paragraph { .. }),
        line_class(trim_spec(line), indented_at(line, span), Line::Text),
        fed(s, line, span, t),
    ensures
        t.resolved == s.resolved,
        t.stack == s.stack,
        t.open is None,
        t.held == Some(
            Held::Paragraph {
                text: s.held.unwrap()->Paragraph_text.push(SPACE) + trim_spec(line),
                attributes: s.held.unwrap()->Paragraph_attributes,
                span: s.held.unwrap()->Paragraph_span.extended(indented_at(line, span)),
            },
        ),
{
    let trimmed = trim_spec(line);
    let at = indented_at(line, span);
    let class = choose|class: Line| line_class(trimmed, at, class) && line_fed(s, class, line, trimmed, at, t);
    assert(class is Text);
}

/// A marker alone on its line, where no block of its kind is the innermost
/// one open, opens a block: the node goes on top of the open blocks with
/// the line as both its span and its fence, after what was held back is
/// collected.
pub proof fn law_marker_line_opens_block(s: Blocks, line: Seq<u8>, span: Span, n: Node, t: Blocks)
    requires
        s.open is None,
        line_class(trim_spec(line), indented_at(line, span), Line::Block(n)),
        n.kind is Marker,
        s.stack.len() == 0 || !same_kind(s.stack.last().kind, n.kind),
        fed(s, line, span, t),
    ensures
        t.stack.len() == s.stack.len() + 1,
        t.stack.last().kind == n.kind,
        t.stack.last().span == Some(indented_at(line, span)),
        t.stack.last().fence == Some(indented_at(line, span)),
        t.held is None,
        t.open is None,
{
    let trimmed = trim_spec(line);
    let at = indented_at(line, span);
    let class = choose|class: Line| line_class(trimmed, at, class) && line_fed(s, class, line, trimmed, at, t);
    assert(class is Block);
    let n2 = class->Block_0;
    assert(n2.kind == n.kind && n2.span == Some(at) && n2.fence == Some(at));
    let m = choose|m: Blocks| collected(s, m) && stack_line(m, n2, trimmed, at, t);
    assert(m.held is None && m.open is None && m.stack.len() == s.stack.len());
    if s.stack.len() > 0 {
        assert(m.stack.last().kind == s.stack.last().kind);
    }
    assert(!closes_top(m, n2));
    assert(t == Blocks { stack: m.stack.push(n2), ..m });
}

/// A marker alone on its line, without attributes, closes the innermost
/// open block where that is of its kind: the block leaves the open ones,
/// grown to end on this line, and goes where the parser then stands.
pub proof fn law_marker_line_closes_block(s: Blocks, line: Seq<u8>, span: Span, n: Node, t: Blocks)
    requires
        s.open is None,
        s.held is None,
        line_class(trim_spec(line), indented_at(line, span), Line::Block(n)),
        n.kind is Marker,
        n.attributes is None,
        s.stack.len() > 0,
        s.stack.last().kind == n.kind,
        fed(s, line, span, t),
    ensures
        t.stack.len() == s.stack.len() - 1,
        t.stack.drop_last() == s.stack.drop_last().drop_last(),
        s.stack.len() == 1 ==> t.resolved.len() == s.resolved.len() + 1 && t.resolved.last().kind == n.kind
            && t.resolved.last().span == grown_span(s.stack.last().span, Some(indented_at(line, span)))
            && t.resolved.last().children@ == s.stack.last().children@,
        s.stack.len() > 1 ==> t.resolved == s.resolved && t.stack.last().children@.last().kind == n.kind
            && t.stack.last().children@.last().span == grown_span(s.stack.last().span, Some(indented_at(line, span)))
            && t.stack.last().children@.last().children@ == s.stack.last().children@,
{
    let trimmed = trim_spec(line);
    let at = indented_at(line, span);
    let class = choose|class: Line| line_class(trimmed, at, class) && line_fed(s, class, line, trimmed, at, t);
    assert(class is Block);
    let n2 = class->Block_0;
    assert(n2.kind == n.kind);
    let src = trimmed.skip(leading_run(trimmed, trimmed[0]) as int);
    crate::node::attribute::lemma_chain_none(src, n.attributes);
    crate::node::attribute::lemma_chain_none(src, n2.attributes);
    assert(n2.attributes is None);
    let m = choose|m: Blocks| collected(s, m) && stack_line(m, n2, trimmed, at, t);
    assert(m == s);
    assert(closes_top(m, n2));
    let s0 = Blocks { stack: s.stack.drop_last(), ..s };
    let c = choose|c: Node| grown(s.stack.last(), n2.span, c) && pushed(s0, c, t);
    if s.stack.len() > 1 {
        assert(t.stack.drop_last() =~= s0.stack.drop_last());
    }
}

/// The least of two widths.
pub open spec fn min_width(a: int, b: int) -> int {
    if a < b {
        a
    } else {
        b
    }
}

/// A verbatim fence line opens a block that remembers the indentation of
/// that line.
pub proof fn law_verbatim_fence_records_indent(s: Blocks, line: Seq<u8>, span: Span, n: Node, t: Blocks)
    requires
        s.open is None,
        line_class(trim_spec(line), indented_at(line, span), Line::Verbatim(n)),
        fed(s, line, span, t),
    ensures
        t.open matches Some((m, k)) && k == leading_ws(line) && m.kind == n.kind && m.span == Some(
            indented_at(line, span),
        ),
{
    let trimmed = trim_spec(line);
    let at = indented_at(line, span);
    let class = choose|class: Line| line_class(trimmed, at, class) && line_fed(s, class, line, trimmed, at, t);
    assert(class is Verbatim);
}

/// Inside a verbatim block whose fence was indented by `k`, a line other
/// than a closing fence (escaped or not) is kept as it is but for its first
/// `min(k, its own indentation)` bytes: those go, the rest becomes the
/// block's last child, and nothing else changes.
pub proof fn law_verbatim_lines_dedent_to_fence(s: Blocks, line: Seq<u8>, span: Span, t: Blocks)
    requires
        s.open is Some,
        trim_spec(line) != seq![BACKTICK, BACKTICK],
        !(trim_start_spec(line).len() >= 3 && trim_start_spec(line)[0] == BACKSLASH && trim_start_spec(line)[1] == BACKTICK
            && trim_start_spec(line)[2] == BACKTICK),
        fed(s, line, span, t),
    ensures
        t.resolved == s.resolved,
        t.stack == s.stack,
        t.held == s.held,
        t.open matches Some((n, i)) && {
            let (o, k) = s.open.unwrap();
            &&& i == k
            &&& n.kind == o.kind
            &&& n.span == o.span
            &&& n.children@.len() == o.children@.len() + 1
            &&& n.children@.drop_last() == o.children@
            &&& raw_node(n.children@.last(), line.skip(min_width(k, leading_ws(line) as int)))
        },
{
    let (o, k) = s.open.unwrap();
    let (n, i) = t.open.unwrap();
    assert(n.children@.drop_last() =~= o.children@);
}

} // verus!
