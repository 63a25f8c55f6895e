use vstd::prelude::*;

use crate::block::line::holds_raw;
use crate::block::step::attribute_node;
use crate::inline::parser::Parser;
use crate::inline::step::{
    absorbed, delimiter_chain, delimiter_opened, flushed, inline_block, inline_nodes, inline_run, inline_step, no_inline, placed, Inline,
};
use crate::node::attribute::{owned_is_attribute_chain, parse_attribute_block, parse_delimiter_attributes};
use crate::node::delimiter::{Delimiter, Delimiters};
use crate::node::tree::{all_text_resolved, all_unplaced, Node, NodeKind};
use crate::text::{push_bytes, starts_with_pair, string_from, BACKSLASH};
use crate::whitespace::trim;

verus! {

/// The content from `i` up to the first closing pair that no backslash
/// escapes, with escaped closing pairs made literal, and where the scan
/// resumes past the closer; an unclosed delimiter takes the rest.
pub open spec fn closed_content(t: Seq<u8>, i: int, closing: Seq<u8>) -> (Seq<u8>, int)
    decreases t.len() - i,
{
    if i < 0 || i >= t.len() {
        (Seq::empty(), t.len() as int)
    } else if t[i] == BACKSLASH && starts_with_pair(t.skip(i + 1), closing) {
        let (c, e) = closed_content(t, i + 3, closing);
        (closing + c, e)
    } else if starts_with_pair(t.skip(i), closing) {
        (Seq::empty(), i + 2)
    } else {
        let (c, e) = closed_content(t, i + 1, closing);
        (seq![t[i]] + c, e)
    }
}

pub proof fn lemma_closed_content_bounds(t: Seq<u8>, i: int, closing: Seq<u8>)
    requires
        0 <= i,
    ensures
        i <= closed_content(t, i, closing).1 <= t.len() || (i > t.len() && closed_content(t, i, closing).1 == t.len()),
    decreases t.len() - i,
{
    if 0 <= i < t.len() {
        if t[i] == BACKSLASH && starts_with_pair(t.skip(i + 1), closing) {
            lemma_closed_content_bounds(t, i + 3, closing);
        } else if starts_with_pair(t.skip(i), closing) {
        } else {
            lemma_closed_content_bounds(t, i + 1, closing);
        }
    }
}

/// Resumes the scan with an owned buffer once a backslash is seen: the
/// content from `start`, where `pos` is where the backslash stands.
fn unescape_until_closing(text: &[u8], start: usize, pos: usize, closing: [u8; 2]) -> (r: (Vec<u8>, usize))
    requires
        start <= pos <= text.len(),
    ensures
        r.0@ == text@.subrange(start as int, pos as int) + closed_content(text@, pos as int, closing@).0,
        r.1 as int == closed_content(text@, pos as int, closing@).1,
{
    let mut content: Vec<u8> = Vec::new();
    push_bytes(&mut content, &text[start..pos]);
    let mut at = pos;
    let ghost first = pos;
    while at < text.len()
        invariant
            start <= first <= at <= text.len(),
            first == pos,
            closed_content(text@, first as int, closing@).0 == content@.skip(first - start)
                + closed_content(text@, at as int, closing@).0,
            closed_content(text@, first as int, closing@).1 == closed_content(text@, at as int, closing@).1,
            content@.len() >= first - start,
            content@.take(first - start) == text@.subrange(start as int, first as int),
        decreases text.len() - at,
    {
        if text[at] == BACKSLASH && text.len() - at > 2 && text[at + 1] == closing[0] && text[at + 2] == closing[1] {
            let ghost before = content@;
            content.push(closing[0]);
            content.push(closing[1]);
            proof {
                assert(starts_with_pair(text@.skip(at + 1), closing@));
                assert(content@.skip(first - start) =~= before.skip(first - start) + closing@);
                assert(content@.take(first - start) =~= before.take(first - start));
                let d = closed_content(text@, at + 3, closing@).0;
                assert(before.skip(first - start) + (closing@ + d) =~= content@.skip(first - start) + d);
            }
            at = at + 3;
            continue;
        }
        if text.len() - at >= 2 && text[at] == closing[0] && text[at + 1] == closing[1] {
            proof {
                assert(starts_with_pair(text@.skip(at as int), closing@));
                if text[at as int] == BACKSLASH {
                    assert(!starts_with_pair(text@.skip(at + 1), closing@));
                }
                assert(content@.skip(first - start) + Seq::<u8>::empty() =~= content@.skip(first - start));
                assert(content@ =~= content@.take(first - start) + content@.skip(first - start));
            }
            return (content, at + 2);
        }
        let ghost before = content@;
        content.push(text[at]);
        proof {
            assert(!starts_with_pair(text@.skip(at as int), closing@));
            if text[at as int] == BACKSLASH {
                assert(!starts_with_pair(text@.skip(at + 1), closing@));
            }
            assert(content@.skip(first - start) =~= before.skip(first - start).push(text[at as int]));
            assert(content@.take(first - start) =~= before.take(first - start));
            let d = closed_content(text@, at + 1, closing@).0;
            assert(before.skip(first - start) + (seq![text@[at as int]] + d) =~= content@.skip(first - start) + d);
        }
        at = at + 1;
    }
    proof {
        assert(content@.skip(first - start) + Seq::<u8>::empty() =~= content@.skip(first - start));
        assert(content@ =~= content@.take(first - start) + content@.skip(first - start));
    }
    (content, text.len())
}

/// The content up to the closing pair, and where the scan resumes past it.
pub(crate) fn take_until_closing(text: &[u8], pos: usize, closing: [u8; 2]) -> (r: (Vec<u8>, usize))
    requires
        pos <= text.len(),
    ensures
        r.0@ == closed_content(text@, pos as int, closing@).0,
        r.1 as int == closed_content(text@, pos as int, closing@).1,
        pos <= r.1 <= text.len(),
{
    proof {
        lemma_closed_content_bounds(text@, pos as int, closing@);
    }
    let start = pos;
    let mut at = pos;
    while at < text.len()
        invariant
            start == pos,
            start <= at <= text.len(),
            closed_content(text@, start as int, closing@).0 == text@.subrange(start as int, at as int)
                + closed_content(text@, at as int, closing@).0,
            closed_content(text@, start as int, closing@).1 == closed_content(text@, at as int, closing@).1,
            start <= closed_content(text@, start as int, closing@).1 <= text.len(),
        decreases text.len() - at,
    {
        if text[at] == BACKSLASH {
            return unescape_until_closing(text, start, at, closing);
        }
        if text.len() - at >= 2 && text[at] == closing[0] && text[at + 1] == closing[1] {
            let mut content: Vec<u8> = Vec::new();
            push_bytes(&mut content, &text[start..at]);
            proof {
                assert(starts_with_pair(text@.skip(at as int), closing@));
                assert(text@.subrange(start as int, at as int) + Seq::<u8>::empty() =~= text@.subrange(start as int, at as int));
            }
            return (content, at + 2);
        }
        proof {
            assert(!starts_with_pair(text@.skip(at as int), closing@));
            let d = closed_content(text@, at + 1, closing@).0;
            assert(text@.subrange(start as int, at as int) + (seq![text@[at as int]] + d) =~= text@.subrange(start as int, at + 1) + d);
        }
        at = at + 1;
    }
    let mut content: Vec<u8> = Vec::new();
    push_bytes(&mut content, &text[start..text.len()]);
    proof {
        assert(text@.subrange(start as int, at as int) + Seq::<u8>::empty() =~= text@.subrange(start as int, at as int));
    }
    (content, text.len())
}

/// Whether a delimiter of this kind is open among `stack`.
fn stack_has(stack: &Vec<Node>, delimiter: Delimiter) -> (r: bool)
    ensures
        r == exists|i: int| 0 <= i < stack@.len() && stack@[i].kind == NodeKind::Delimiter(delimiter),
{
    let mut i: usize = 0;
    while i < stack.len()
        invariant
            i <= stack@.len(),
            forall|k: int| 0 <= k < i ==> stack@[k].kind != NodeKind::Delimiter(delimiter),
        decreases stack@.len() - i,
    {
        let same = match &stack[i].kind {
            NodeKind::Delimiter(d) => *d == delimiter,
            _ => false,
        };
        if same {
            return true;
        }
        i = i + 1;
    }
    false
}

/// The cursor stands just past an opening pair: consumes the attribute
/// chain and whatever body the delimiter owns, and returns where the input
/// continues.
fn open_delimiter(parser: &mut Parser, text: &[u8], pos: usize, delimiter: Delimiter, closing: [u8; 2]) -> (next: usize)
    requires
        old(parser).wf(),
        pos <= text.len(),
        delimiter.closing_spec() == Some(closing@),
    ensures
        final(parser).wf(),
        pos <= next <= text.len(),
        delimiter_opened(old(parser).inline(), text@, pos as int, delimiter, final(parser).inline(), next as int),
{
    let ghost s = parser.inline();
    let (attributes, rest) = parse_delimiter_attributes(&text[pos..text.len()], delimiter);
    proof {
        assert(text@.subrange(pos as int, text@.len() as int) =~= text@.skip(pos as int));
        assert(delimiter_chain(text@.skip(pos as int), delimiter, attributes, rest@));
    }
    let ghost attrs = attributes;
    let ghost rest_v = rest@;
    let mut at = text.len() - rest.len();
    let mut node = Node::new(NodeKind::Delimiter(delimiter), attributes);
    match delimiter {
        Delimiter::Verbatim => {
            let (content, after) = take_until_closing(text, at, closing);
            at = after;
            let content = trim(content.as_slice());
            // an attribute node in place of the block; invalid KDL stays verbatim
            if owned_is_attribute_chain(&node.attributes) {
                let body = string_from(content);
                if let Ok(attributes) = parse_attribute_block(body.as_str()) {
                    proof {
                        assert(inline_block(attrs, content@) == Some(attributes));
                    }
                    let at = parser.absorb_separator(text, at);
                    let ghost absorbed_state = parser.inline();
                    assert(absorbed_state == Inline { buffer: absorbed(s, text@, after as int).0, ..s });
                    parser.flush();
                    let ghost m = parser.inline();
                    let block = Node::attributes(attributes);
                    parser.push_node(block);
                    proof {
                        assert(attribute_node(attributes, None, block));
                        assert(flushed(absorbed_state, m) && attribute_node(attributes, None, block) && placed(m, block, parser.inline()));
                    }
                    return at;
                }
            }
            proof {
                assert(inline_block(attrs, content@) is None);
            }
            node.children = Node::raw_children(content);
            proof {
                assert(holds_raw(content@, node.children@)) by {
                    if content@.len() != 0 {
                        assert(node.children@[0].unplaced());
                    }
                }
            }
        },
        Delimiter::Link => {
            let (content, after) = take_until_closing(text, at, closing);
            at = after;
            node.kind = NodeKind::Link(string_from(trim(content.as_slice())));
        },
        _ => {
            parser.flush();
            let ghost m = parser.inline();
            proof {
                assert(node.unplaced());
            }
            parser.stack.push(node);
            proof {
                assert(parser.inline().stack.drop_last() =~= m.stack);
                assert(flushed(s, m));
            }
            return at;
        },
    }
    parser.flush();
    let ghost m = parser.inline();
    parser.push_node(node);
    proof {
        assert(flushed(s, m) && placed(m, node, parser.inline()));
    }
    at
}

/// Resolves the delimiters inside one text. The unconsumed source is the
/// cursor: every step advances it. No node it returns carries a position.
pub(crate) fn parse_raw(text: &[u8], ancestors: Delimiters) -> (nodes: Vec<Node>)
    ensures
        all_unplaced(nodes@),
        all_text_resolved(nodes@),
        inline_nodes(text@, ancestors, nodes@),
{
    let mut parser = Parser::new();
    assert(parser.inline() =~= no_inline());
    let mut pos: usize = 0;
    while pos < text.len()
        invariant
            parser.wf(),
            pos <= text.len(),
            forall|r: Seq<Node>|
                #![trigger inline_run(parser.inline(), text@, pos as int, ancestors, r)]
                inline_run(parser.inline(), text@, pos as int, ancestors, r) ==> inline_nodes(text@, ancestors, r),
        decreases text.len() - pos,
    {
        let ghost here = parser.inline();
        let ghost at = pos as int;
        assert(text@.subrange(at, text@.len() as int) =~= text@.skip(at));
        // a backslash makes the delimiter or byte after it literal; a
        // trailing backslash is literal itself
        if text[pos] == BACKSLASH && text.len() - pos > 1 {
            let width: usize = if Delimiter::at_bytes(&text[pos + 1..text.len()]).is_some() {
                2
            } else {
                1
            };
            proof {
                assert(text@.subrange(at + 1, text@.len() as int) =~= text@.skip(at + 1));
            }
            parser.push_char(text[pos + 1]);
            if width == 2 {
                parser.push_char(text[pos + 2]);
            }
            pos = pos + 1 + width;
            proof {
                assert(parser.inline() =~= Inline { buffer: here.buffer + text@.subrange(at + 1, pos as int), ..here });
                lemma_step_back(here, parser.inline(), text@, at, pos as int, ancestors);
            }
            continue;
        }
        if let Some(delimiter) = Delimiter::at_bytes(&text[pos..text.len()]) {
            let n = parser.stack.len();
            let top_is = n > 0 && match &parser.stack[n - 1].kind {
                NodeKind::Delimiter(d) => *d == delimiter,
                _ => false,
            };
            if delimiter.closes_bytes(&text[pos..text.len()]) && top_is {
                pos = pos + 2;
                parser.close_node();
                proof {
                    lemma_step_back(here, parser.inline(), text@, at, pos as int, ancestors);
                }
                continue;
            }
            if let Some(closing) = delimiter.closing() {
                if delimiter.opens_bytes(&text[pos..text.len()]) && !ancestors.contains(delimiter)
                    && !stack_has(&parser.stack, delimiter) {
                    pos = open_delimiter(&mut parser, text, pos + 2, delimiter, closing);
                    proof {
                        lemma_step_back(here, parser.inline(), text@, at, pos as int, ancestors);
                    }
                    continue;
                }
            }
        }
        parser.push_char(text[pos]);
        pos = pos + 1;
        proof {
            lemma_step_back(here, parser.inline(), text@, at, pos as int, ancestors);
        }
    }
    let nodes = parser.collect();
    proof {
        assert(inline_run(parser.inline(), text@, pos as int, ancestors, nodes@));
    }
    nodes
}

/// A step that the text takes from `pos` to `next` carries what the rest of
/// the text leaves back to the start.
proof fn lemma_step_back(s: Inline, t: Inline, text: Seq<u8>, pos: int, next: int, ancestors: Delimiters)
    requires
        0 <= pos < next <= text.len(),
        inline_step(s, text, pos, ancestors, t, next),
        forall|r: Seq<Node>|
            #![trigger inline_run(s, text, pos, ancestors, r)]
            inline_run(s, text, pos, ancestors, r) ==> inline_nodes(text, ancestors, r),
    ensures
        forall|r: Seq<Node>|
            #![trigger inline_run(t, text, next, ancestors, r)]
            inline_run(t, text, next, ancestors, r) ==> inline_nodes(text, ancestors, r),
{
    assert forall|r: Seq<Node>| #![trigger inline_run(t, text, next, ancestors, r)] inline_run(t, text, next, ancestors, r) implies inline_nodes(
        text,
        ancestors,
        r,
    ) by {
        assert(inline_run(s, text, pos, ancestors, r));
    }
}

} // verus!
