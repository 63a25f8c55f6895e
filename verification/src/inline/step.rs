//! What each step of the inline pass does to what its parser holds: the
//! nodes resolved, the delimiters still open, and the text not yet made a
//! node.

use vstd::prelude::*;
use vstd::utf8::*;

use crate::block::line::holds_raw;
use crate::block::step::attribute_node;
use crate::inline::attach::{last_content, pushed_resolved};
use crate::inline::parser::first_content;
use crate::inline::raw::closed_content;
use crate::inline::table::{rows_split, table_padded};
use crate::node::attribute::{boundary_in_chain, chain_result, Owned};
use crate::node::delimiter::{delimiter_at, Delimiter, Delimiters};
use crate::node::kdl::kdl_document;
use crate::node::tree::{Node, NodeKind};
use crate::text::{lossy_utf8, starts_with_pair, BACKSLASH};
use crate::whitespace::{is_ws, leading_ws, trailing_ws, trim_spec};

verus! {

/// Everything the inline parser holds.
#[verifier::ext_equal]
pub struct Inline {
    pub resolved: Seq<Node>,
    pub stack: Seq<Node>,
    pub buffer: Seq<u8>,
}

/// The state before the first byte.
pub open spec fn no_inline() -> Inline {
    Inline { resolved: Seq::empty(), stack: Seq::empty(), buffer: Seq::empty() }
}

/// `n` and `m` differ in their children at most.
pub open spec fn same_but_children(n: Node, m: Node) -> bool {
    &&& m.kind == n.kind
    &&& m.attributes == n.attributes
    &&& m.span == n.span
    &&& m.fence == n.fence
}

/// `node` goes where the parser stands: among the children of the innermost
/// open delimiter, else among the resolved nodes, each time as
/// [`pushed_resolved`] says.
pub open spec fn placed(s: Inline, node: Node, t: Inline) -> bool {
    &&& t.buffer == s.buffer
    &&& if s.stack.len() == 0 {
        t.stack == s.stack && pushed_resolved(s.resolved, node, t.resolved)
    } else {
        &&& t.resolved == s.resolved
        &&& t.stack.len() == s.stack.len()
        &&& t.stack.drop_last() == s.stack.drop_last()
        &&& same_but_children(s.stack.last(), t.stack.last())
        &&& pushed_resolved(s.stack.last().children@, node, t.stack.last().children@)
    }
}

/// A text node holding `text` and nothing else: the text as it reads, which
/// is `text` itself where that is valid UTF-8.
pub open spec fn text_node(n: Node, text: Seq<u8>) -> bool {
    &&& n.kind matches NodeKind::Text(t) && t@ == lossy_utf8(text) && (valid_utf8(text) ==> encode_utf8(t@) == text)
    &&& n.attributes is None
    &&& n.children@.len() == 0
    &&& n.span is None
    &&& n.fence is None
}

/// The buffered text, if any, becomes a text node where the parser stands.
pub open spec fn flushed(s: Inline, t: Inline) -> bool {
    if s.buffer.len() == 0 {
        t == s
    } else {
        let s0 = Inline { buffer: Seq::empty(), ..s };
        exists|n: Node| #![trigger placed(s0, n, t)] text_node(n, s.buffer) && placed(s0, n, t)
    }
}

/// A text node whose text begins (or ends) with whitespace loses that byte;
/// any other node stays as it is.
pub open spec fn edge_trimmed(c: Node, at_start: bool, d: Node) -> bool {
    match c.kind {
        NodeKind::Text(t) => {
            let b = encode_utf8(t@);
            if b.len() > 0 && is_ws(
                if at_start {
                    b[0]
                } else {
                    b.last()
                },
            ) {
                &&& d.kind matches NodeKind::Text(u) && u@ == lossy_utf8(
                    if at_start {
                        b.skip(1)
                    } else {
                        b.drop_last()
                    },
                )
                &&& d.attributes == c.attributes
                &&& d.children == c.children
                &&& d.span == c.span
                &&& d.fence == c.fence
            } else {
                d == c
            }
        },
        _ => d == c,
    }
}

/// The first content node among `a` is trimmed at its start.
pub open spec fn front_trimmed(a: Seq<Node>, b: Seq<Node>) -> bool {
    &&& b.len() == a.len()
    &&& match first_content(a) {
        Some(i) => edge_trimmed(a[i], true, b[i]) && forall|k: int| 0 <= k < a.len() && k != i ==> #[trigger] b[k] == a[k],
        None => b == a,
    }
}

/// The last content node among `a` is trimmed at its end.
pub open spec fn back_trimmed(a: Seq<Node>, b: Seq<Node>) -> bool {
    &&& b.len() == a.len()
    &&& match last_content(a) {
        Some(j) => edge_trimmed(a[j], false, b[j]) && forall|k: int| 0 <= k < a.len() && k != j ==> #[trigger] b[k] == a[k],
        None => b == a,
    }
}

/// A closed delimiter loses one whitespace byte at each edge of its content.
pub open spec fn node_trimmed(n: Node, m: Node) -> bool {
    &&& same_but_children(n, m)
    &&& exists|mid: Seq<Node>| #![trigger front_trimmed(n.children@, mid)] front_trimmed(n.children@, mid) && back_trimmed(mid, m.children@)
}

/// The innermost open delimiter closes: the buffered text is flushed into
/// it, and it goes, trimmed, where the parser then stands.
pub open spec fn top_closed(s: Inline, t: Inline) -> bool {
    exists|m: Inline|
        #![trigger flushed(s, m)]
        flushed(s, m) && if m.stack.len() == 0 {
            t == m
        } else {
            let m0 = Inline { stack: m.stack.drop_last(), ..m };
            exists|n: Node| #![trigger placed(m0, n, t)] node_trimmed(m.stack.last(), n) && placed(m0, n, t)
        }
}

/// At the end of the text the open delimiters close, innermost first, the
/// rest of the buffer is flushed, and `nodes` is what is resolved.
pub open spec fn inline_done(s: Inline, nodes: Seq<Node>) -> bool
    decreases s.stack.len(),
{
    if s.stack.len() == 0 {
        exists|m: Inline| #![trigger flushed(s, m)] flushed(s, m) && nodes == m.resolved
    } else {
        exists|t: Inline| #![trigger top_closed(s, t)] top_closed(s, t) && t.stack.len() < s.stack.len() && inline_done(t, nodes)
    }
}

/// The nodes beside the one about to be placed: the children of the
/// innermost open delimiter, else the resolved nodes.
pub open spec fn siblings(s: Inline) -> Seq<Node> {
    if s.stack.len() == 0 {
        s.resolved
    } else {
        s.stack.last().children@
    }
}

/// Every node of `nodes` is an attribute node.
pub open spec fn all_attributes(nodes: Seq<Node>) -> bool {
    forall|k: int| 0 <= k < nodes.len() ==> (#[trigger] nodes[k]).kind is Attributes
}

/// An attribute node takes the whitespace separating it from the content,
/// but only at the edges of its parent: where nothing but attribute nodes
/// and whitespace comes before it, or nothing but whitespace (or the
/// closer of its parent) after. The buffer then loses its trailing
/// whitespace and the input its leading whitespace.
pub open spec fn absorbed(s: Inline, text: Seq<u8>, pos: int) -> (Seq<u8>, int) {
    let input = text.skip(pos);
    let skip = leading_ws(input) as int;
    let rest = input.skip(skip);
    let kept = s.buffer.len() - trailing_ws(s.buffer);
    let leading = kept == 0 && all_attributes(siblings(s));
    let trailing = rest.len() == 0 || (s.stack.len() > 0 && (s.stack.last().kind matches NodeKind::Delimiter(d)
        && d.closing_spec() is Some && starts_with_pair(rest, d.closing_spec().unwrap())));
    if leading || trailing {
        (s.buffer.take(kept), pos + skip)
    } else {
        (s.buffer, pos)
    }
}

/// What reading the attribute chain after a delimiter gives: its entries,
/// stopping at the delimiter's attribute boundary, and the rest.
pub open spec fn delimiter_chain(src: Seq<u8>, delimiter: Delimiter, attrs: Owned, rest: Seq<u8>) -> bool {
    &&& rest.len() <= src.len()
    &&& rest == src.skip(src.len() - rest.len())
    &&& match boundary_in_chain(src, delimiter) {
        None => chain_result(src, attrs, rest),
        Some(p) => 0 <= p <= src.len() && chain_result(src.take(p), attrs, src.take(p).skip(src.len() - rest.len())),
    }
}

/// A delimiter node as the inline pass makes it, without children yet.
pub open spec fn delimiter_node(n: Node, delimiter: Delimiter, attrs: Owned) -> bool {
    &&& n.kind == NodeKind::Delimiter(delimiter)
    &&& n.attributes == attrs
    &&& n.children@.len() == 0
    &&& n.span is None
    &&& n.fence is None
}

/// Whether the content `c` of a verbatim delimiter with these attributes is
/// read as an attribute block, and the attributes if so.
pub open spec fn inline_block(attrs: Owned, c: Seq<u8>) -> Option<Vec<crate::node::attribute::Attribute>> {
    if attrs matches Some(a) && a.is_attribute_chain_spec() {
        match kdl_document(lossy_utf8(c)) {
            Ok(attributes) => Some(attributes),
            Err(_) => None,
        }
    } else {
        None
    }
}

/// The body a delimiter owns once its opening pair, which ends at `pos`, is
/// read: its attribute chain, then for a verbatim delimiter the content up to
/// its closer, trimmed (an attribute node in place of the block where it is
/// an ``attr: one and reads as KDL), for a link its target, trimmed; any
/// other delimiter stays open. `next` is where the input continues.
pub open spec fn delimiter_opened(s: Inline, text: Seq<u8>, pos: int, delimiter: Delimiter, t: Inline, next: int) -> bool {
    let src = text.skip(pos);
    exists|attrs: Owned, rest: Seq<u8>|
        #![trigger delimiter_chain(src, delimiter, attrs, rest)]
        delimiter_chain(src, delimiter, attrs, rest) && {
            let at = text.len() - rest.len();
            let closing = delimiter.closing_spec().unwrap();
            let body = closed_content(text, at, closing);
            let c = trim_spec(body.0);
            if delimiter == Delimiter::Verbatim {
                match inline_block(attrs, c) {
                    Some(attributes) => {
                        let (buffer, skipped) = absorbed(s, text, body.1);
                        &&& next == skipped
                        &&& exists|m: Inline, n: Node|
                            #![trigger flushed(Inline { buffer, ..s }, m), placed(m, n, t)]
                            flushed(Inline { buffer, ..s }, m) && attribute_node(attributes, None, n) && placed(m, n, t)
                    },
                    None => {
                        &&& next == body.1
                        &&& exists|m: Inline, n: Node|
                            #![trigger flushed(s, m), placed(m, n, t)]
                            flushed(s, m) && {
                                &&& n.kind == NodeKind::Delimiter(delimiter)
                                &&& n.attributes == attrs
                                &&& holds_raw(c, n.children@)
                                &&& n.span is None
                                &&& n.fence is None
                            } && placed(m, n, t)
                    },
                }
            } else if delimiter == Delimiter::Link {
                &&& next == body.1
                &&& exists|m: Inline, n: Node|
                    #![trigger flushed(s, m), placed(m, n, t)]
                    flushed(s, m) && {
                        &&& n.kind matches NodeKind::Link(target) && target@ == lossy_utf8(c) && (valid_utf8(c)
                            ==> encode_utf8(target@) == c)
                        &&& n.attributes == attrs
                        &&& n.children@.len() == 0
                        &&& n.span is None
                        &&& n.fence is None
                    } && placed(m, n, t)
            } else {
                &&& next == at
                &&& exists|m: Inline|
                    #![trigger flushed(s, m)]
                    flushed(s, m) && t.resolved == m.resolved && t.buffer == m.buffer && t.stack.len() == m.stack.len() + 1
                        && t.stack.drop_last() == m.stack && delimiter_node(t.stack.last(), delimiter, attrs)
            }
        }
}

/// Whether the delimiter at the start of `rest` closes the innermost open one.
pub open spec fn closes_open(s: Inline, delimiter: Delimiter, rest: Seq<u8>) -> bool {
    &&& delimiter.closing_spec() is Some
    &&& starts_with_pair(rest, delimiter.closing_spec().unwrap())
    &&& s.stack.len() > 0
    &&& s.stack.last().kind == NodeKind::Delimiter(delimiter)
}

/// Whether the delimiter at the start of `rest` opens: it has a closer, is
/// written as its opening pair, and is open neither around the text nor
/// inside it.
pub open spec fn opens_here(s: Inline, delimiter: Delimiter, rest: Seq<u8>, ancestors: Delimiters) -> bool {
    &&& delimiter.closing_spec() is Some
    &&& starts_with_pair(rest, delimiter.opening_spec())
    &&& !ancestors.has(delimiter)
    &&& !exists|i: int| 0 <= i < s.stack.len() && s.stack[i].kind == NodeKind::Delimiter(delimiter)
}

/// One step over the text at `pos`: a backslash makes the delimiter or byte
/// after it literal; a delimiter closes the innermost open one of its kind
/// or opens; any other byte is text.
pub open spec fn inline_step(s: Inline, text: Seq<u8>, pos: int, ancestors: Delimiters, t: Inline, next: int) -> bool {
    let rest = text.skip(pos);
    if text[pos] == BACKSLASH && text.len() - pos > 1 {
        let width = if delimiter_at(text.skip(pos + 1)) is Some {
            2int
        } else {
            1int
        };
        t == Inline { buffer: s.buffer + text.subrange(pos + 1, pos + 1 + width), ..s } && next == pos + 1 + width
    } else if delimiter_at(rest) is Some && closes_open(s, delimiter_at(rest).unwrap(), rest) {
        top_closed(s, t) && next == pos + 2
    } else if delimiter_at(rest) is Some && opens_here(s, delimiter_at(rest).unwrap(), rest, ancestors) {
        delimiter_opened(s, text, pos + 2, delimiter_at(rest).unwrap(), t, next)
    } else {
        t == Inline { buffer: s.buffer.push(text[pos]), ..s } && next == pos + 1
    }
}

/// The text from `pos` on, read step by step, leaves `nodes`.
pub open spec fn inline_run(s: Inline, text: Seq<u8>, pos: int, ancestors: Delimiters, nodes: Seq<Node>) -> bool
    decreases text.len() - pos,
{
    if pos < 0 || pos >= text.len() {
        inline_done(s, nodes)
    } else {
        exists|t: Inline, next: int|
            #![trigger inline_step(s, text, pos, ancestors, t, next)]
            inline_step(s, text, pos, ancestors, t, next) && pos < next <= text.len() && inline_run(t, text, next, ancestors, nodes)
    }
}

/// `nodes` is what the inline pass reads from `text` inside `ancestors`.
pub open spec fn inline_nodes(text: Seq<u8>, ancestors: Delimiters, nodes: Seq<Node>) -> bool {
    inline_run(no_inline(), text, 0, ancestors, nodes)
}

/// `done` with each of `items` pushed in turn, as [`pushed_resolved`] says.
pub open spec fn pushed_all(done: Seq<Node>, items: Seq<Node>, out: Seq<Node>) -> bool
    decreases items.len(),
{
    if items.len() == 0 {
        out == done
    } else {
        exists|next: Seq<Node>|
            #![trigger pushed_resolved(done, items[0], next)]
            pushed_resolved(done, items[0], next) && pushed_all(next, items.drop_first(), out)
    }
}

/// The nodes read from a raw text pushed onto `done`: taken as they are
/// where nothing is done yet.
pub open spec fn raw_pushed(done: Seq<Node>, parsed: Seq<Node>, next: Seq<Node>) -> bool {
    if done.len() == 0 {
        next == parsed
    } else {
        pushed_all(done, parsed, next)
    }
}

/// What the inline pass makes of one node: the same node, with its children
/// resolved. A table's rows are split into cells and padded; a verbatim
/// node keeps its text; the children of a delimiter are resolved with it
/// among the ancestors, those of any other node with the same ancestors.
pub open spec fn node_resolved(n: Node, ancestors: Delimiters, m: Node) -> bool
    decreases n, 1int,
{
    &&& same_but_children(n, m)
    &&& match n.kind {
        NodeKind::Table => exists|split: Seq<Node>|
            #![trigger rows_split(n.children@, ancestors, split)]
            rows_split(n.children@, ancestors, split) && table_padded(split, m.children@),
        NodeKind::Delimiter(Delimiter::Verbatim) => m.children@ == n.children@,
        NodeKind::Delimiter(d) => nodes_resolved(Seq::empty(), n.children@, ancestors.with_spec(d), m.children@),
        _ => nodes_resolved(Seq::empty(), n.children@, ancestors, m.children@),
    }
}

/// `out` is `done` followed by the nodes of `rest`, each resolved in turn:
/// a raw text becomes the inline nodes read from it, each pushed as
/// [`pushed_resolved`] says (with nothing done yet, they are taken as they
/// are); any other node is resolved as [`node_resolved`] says and pushed.
pub open spec fn nodes_resolved(done: Seq<Node>, rest: Seq<Node>, ancestors: Delimiters, out: Seq<Node>) -> bool
    decreases rest, 0int,
{
    if rest.len() == 0 {
        out == done
    } else {
        let n = rest[0];
        match n.kind {
            NodeKind::Raw(t) => exists|parsed: Seq<Node>, next: Seq<Node>|
                #![trigger inline_nodes(encode_utf8(t@), ancestors, parsed), raw_pushed(done, parsed, next)]
                inline_nodes(encode_utf8(t@), ancestors, parsed) && raw_pushed(done, parsed, next) && nodes_resolved(
                    next,
                    rest.drop_first(),
                    ancestors,
                    out,
                ),
            _ => exists|m: Node, next: Seq<Node>|
                #![trigger pushed_resolved(done, m, next)]
                node_resolved(n, ancestors, m) && pushed_resolved(done, m, next) && nodes_resolved(
                    next,
                    rest.drop_first(),
                    ancestors,
                    out,
                ),
        }
    }
}

/// A delimiter already open around the text does not open again inside
/// it: unless it closes the innermost open delimiter, its first byte is
/// text.
pub proof fn law_ancestor_delimiter_is_text(
    s: Inline,
    text: Seq<u8>,
    pos: int,
    ancestors: Delimiters,
    d: Delimiter,
    t: Inline,
    next: int,
)
    requires
        0 <= pos < text.len(),
        text[pos] != BACKSLASH,
        delimiter_at(text.skip(pos)) == Some(d),
        ancestors.has(d),
        !closes_open(s, d, text.skip(pos)),
        inline_step(s, text, pos, ancestors, t, next),
    ensures
        t.buffer == s.buffer.push(text[pos]),
        t.resolved == s.resolved,
        t.stack == s.stack,
        next == pos + 1,
{
}

/// A backslash makes the delimiter after it text: both of its bytes go to
/// the buffer, and the scan goes on past them.
pub proof fn law_escaped_delimiter_is_text(s: Inline, text: Seq<u8>, pos: int, ancestors: Delimiters, t: Inline, next: int)
    requires
        0 <= pos < text.len(),
        text[pos] == BACKSLASH,
        delimiter_at(text.skip(pos + 1)) is Some,
        inline_step(s, text, pos, ancestors, t, next),
    ensures
        t.buffer == s.buffer + seq![text[pos + 1], text[pos + 2]],
        t.resolved == s.resolved,
        t.stack == s.stack,
        next == pos + 3,
{
    assert(text.subrange(pos + 1, pos + 3) =~= seq![text[pos + 1], text[pos + 2]]);
}

/// After a delimiter, a text whose first byte that can end an entry is the
/// `:` of `://` gives no attributes and is left whole: a link written
/// `[[https://…]]` keeps its scheme in its target.
pub proof fn law_url_after_delimiter(src: Seq<u8>, i: int, delimiter: Delimiter, attrs: Owned, rest: Seq<u8>)
    requires
        0 <= i,
        i + 2 < src.len(),
        src[i] == crate::text::COLON,
        src[i + 1] == crate::text::SLASH,
        src[i + 2] == crate::text::SLASH,
        forall|j: int| 0 <= j < i ==> !crate::node::attribute::chain_stop(#[trigger] src[j]),
        delimiter_chain(src, delimiter, attrs, rest),
    ensures
        attrs is None,
        rest == src,
{
    crate::node::attribute::lemma_no_entry_before_url(src, i, 0);
    assert(src.take(0) =~= Seq::<u8>::empty());
    assert(boundary_in_chain(src, delimiter) is None);
    crate::node::attribute::law_url_opens_no_chain(src, i, attrs, rest);
}

} // verus!
