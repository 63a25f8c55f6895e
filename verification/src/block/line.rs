use vstd::prelude::*;
use vstd::utf8::*;

use crate::node::attribute::{
    chain_attrs, chain_rest, delimiter_chain_attrs, delimiter_chain_taken, parse_attributes, parse_delimiter_attributes,
};
use crate::node::delimiter::{delimiter_at, Delimiter};
use crate::node::marker::{marker_of_byte, Marker, MarkerKind};
use crate::node::tree::{all_unplaced, leading_run, lemma_leading_run_is, Node, NodeKind};
use crate::span::Span;
use crate::text::{lossy_utf8, BACKTICK};
use crate::whitespace::{trim, trim_spec};

verus! {

/// What one line of the source is to the block parser.
pub enum Line {
    /// A single-line marker with text after it.
    Resolved(Node),
    /// A marker or delimiter alone on its line: it opens or closes a block.
    Block(Node),
    /// ``…: the body is raw content rather than markup.
    Verbatim(Node),
    /// A table row.
    Row(Node),
    Blank,
    Text,
}

/// A node built from the (trimmed) line `line` that `span` locates: the
/// node opens with the line's syntax and carries no other position.
pub open spec fn from_line(line: Seq<u8>, span: Span, n: Node) -> bool {
    &&& n.span == Some(span)
    &&& (n.fence is Some ==> n.fence == Some(span))
    &&& match n.kind {
        NodeKind::Marker(m) => line.len() > 0 && line[0] == m.kind.byte_spec(),
        NodeKind::Delimiter(d) => delimiter_at(line) == Some(d),
        _ => false,
    }
    &&& all_unplaced(n.children@)
    &&& forall|i: int| 0 <= i < n.children@.len() ==> (#[trigger] n.children@[i]).children@.len() == 0
    &&& n.children@.len() <= 1
    &&& (n.attributes matches Some(a) ==> a.blocks@.len() == 0)
}

/// What [`classify`] promises of the line it is given.
pub open spec fn classified(line: Seq<u8>, span: Span, result: Line) -> bool {
    match result {
        Line::Resolved(n) => from_line(line, span, n) && n.kind is Marker && n.fence is None,
        Line::Block(n) => {
            &&& from_line(line, span, n)
            &&& n.children@.len() == 0
            &&& (n.kind is Marker ==> n.fence == Some(span))
            &&& (n.kind matches NodeKind::Delimiter(d) ==> n.fence is None && d.closing_spec() is Some
                && d != Delimiter::Verbatim)
        },
        Line::Verbatim(n) => {
            &&& from_line(line, span, n)
            &&& n.kind == NodeKind::Delimiter(Delimiter::Verbatim)
            &&& n.fence is None
            &&& n.children@.len() == 0
        },
        Line::Row(n) => {
            &&& from_line(line, span, n)
            &&& (n.kind == NodeKind::Delimiter(Delimiter::TableHeader) || n.kind == NodeKind::Delimiter(
                Delimiter::TableRow,
            ))
            &&& n.fence is None
        },
        Line::Blank => line.len() == 0,
        Line::Text => line.len() > 0,
    }
}

/// `children` is the raw text `body` as one raw node, or nothing where it is
/// empty.
pub open spec fn holds_raw(body: Seq<u8>, children: Seq<Node>) -> bool {
    if body.len() == 0 {
        children.len() == 0
    } else {
        &&& children.len() == 1
        &&& children[0].kind matches NodeKind::Raw(t) && t@ == lossy_utf8(body) && (valid_utf8(body) ==> encode_utf8(t@)
            == body)
        &&& children[0].attributes is None
        &&& children[0].children@.len() == 0
        &&& children[0].span is None
        &&& children[0].fence is None
    }
}

/// A node a line makes: of this kind, at `span`, with `fence`, holding the
/// raw text `body`.
pub open spec fn line_node(n: Node, kind: NodeKind, span: Span, fence: Option<Span>, body: Seq<u8>) -> bool {
    &&& n.kind == kind
    &&& n.span == Some(span)
    &&& n.fence == fence
    &&& holds_raw(body, n.children@)
}

/// What a trimmed line is. Empty, it is blank. Opening with a delimiter, it
/// is a table row where the delimiter is one, holding the text after its
/// chain; otherwise, with nothing after the chain, the fence of a block (a
/// verbatim one for the verbatim delimiter); with more, or for a delimiter
/// that closes nothing, text. Opening with a marker byte, the run of it is
/// the marker's depth: with nothing after the chain, a block's fence, which
/// the node records; with more, a marker line holding that text. Anything
/// else is text.
pub open spec fn line_class(line: Seq<u8>, span: Span, result: Line) -> bool {
    if line.len() == 0 {
        result is Blank
    } else if delimiter_at(line) is Some {
        let d = delimiter_at(line).unwrap();
        let src = line.skip(2);
        let body = trim_spec(src.skip(delimiter_chain_taken(src, d)));
        let kind = NodeKind::Delimiter(d);
        if d == Delimiter::TableHeader || d == Delimiter::TableRow {
            match result {
                Line::Row(n) => line_node(n, kind, span, None, body) && delimiter_chain_attrs(src, d, n.attributes),
                _ => false,
            }
        } else if d.closing_spec() is None || body.len() != 0 {
            result is Text
        } else if d == Delimiter::Verbatim {
            match result {
                Line::Verbatim(n) => line_node(n, kind, span, None, body) && delimiter_chain_attrs(src, d, n.attributes),
                _ => false,
            }
        } else {
            match result {
                Line::Block(n) => line_node(n, kind, span, None, body) && delimiter_chain_attrs(src, d, n.attributes),
                _ => false,
            }
        }
    } else if marker_of_byte(line[0]) is Some {
        let depth = leading_run(line, line[0]);
        let src = line.skip(depth as int);
        let body = trim_spec(chain_rest(src));
        let kind = NodeKind::Marker(Marker { depth: depth as usize, kind: marker_of_byte(line[0]).unwrap() });
        if body.len() == 0 {
            match result {
                Line::Block(n) => line_node(n, kind, span, Some(span), body) && chain_attrs(src, n.attributes),
                _ => false,
            }
        } else {
            match result {
                Line::Resolved(n) => line_node(n, kind, span, None, body) && chain_attrs(src, n.attributes),
                _ => false,
            }
        }
    } else {
        result is Text
    }
}

/// A verbatim block closes on a line that is nothing but the delimiter.
pub(crate) fn is_verbatim_close(line: &[u8]) -> (r: bool)
    ensures
        r == (trim_spec(line@) == seq![BACKTICK, BACKTICK]),
{
    let t = trim(line);
    let r = t.len() == 2 && t[0] == BACKTICK && t[1] == BACKTICK;
    proof {
        if r {
            assert(t@ =~= seq![BACKTICK, BACKTICK]);
        }
    }
    r
}

/// Sorts a trimmed line: delimiter blocks (inline delimiters are left for
/// the inline pass), table rows and structural markers.
pub(crate) fn classify(line: &[u8], span: Span) -> (result: Line)
    ensures
        classified(line@, span, result),
        line_class(line@, span, result),
{
    if line.len() == 0 {
        return Line::Blank;
    }
    let first = line[0];
    if let Some(delimiter) = Delimiter::at_bytes(line) {
        let (attributes, rest) = parse_delimiter_attributes(&line[2..line.len()], delimiter);
        let rest = trim(rest);
        match delimiter {
            Delimiter::TableHeader | Delimiter::TableRow => {
                let children = Node::raw_children(rest);
                return Line::Row(
                    Node { kind: NodeKind::Delimiter(delimiter), attributes, children, span: Some(span), fence: None },
                );
            },
            _ => {},
        }
        // a table cell cannot start a row, and inline delimiters are left
        // to the inline pass
        if delimiter.closing().is_none() || rest.len() != 0 {
            return Line::Text;
        }
        let node = Node::new(NodeKind::Delimiter(delimiter), attributes).at(span);
        return match delimiter {
            Delimiter::Verbatim => Line::Verbatim(node),
            _ => Line::Block(node),
        };
    }
    // Structural markers
    if let Some(kind) = MarkerKind::from_byte(first) {
        let mut depth: usize = 0;
        while depth < line.len() && line[depth] == first
            invariant
                depth <= line.len(),
                first == line@[0],
                forall|k: int| 0 <= k < depth ==> line@[k] == first,
            decreases line.len() - depth,
        {
            depth = depth + 1;
        }
        proof {
            lemma_leading_run_is(line@, first, depth as int);
        }
        let marker = Marker { depth, kind };
        let (attributes, rest) = parse_attributes(&line[depth..line.len()]);
        let rest = trim(rest);
        let children = Node::raw_children(rest);
        if rest.len() == 0 {
            // A block marker's span grows to its closing fence, so it keeps
            // the opening line separately: that is where an editor inserts.
            return Line::Block(
                Node { kind: NodeKind::Marker(marker), attributes, children, span: Some(span), fence: Some(span) },
            );
        } else {
            return Line::Resolved(
                Node { kind: NodeKind::Marker(marker), attributes, children, span: Some(span), fence: None },
            );
        }
    }
    Line::Text
}

} // verus!
