//! The block pass: splits the source into lines and builds the block tree,
//! recording where each block is.

use vstd::prelude::*;
use vstd::utf8::*;

use crate::node::tree::{all_nested, all_rows_unsplit, blocks_in_order, spans_ordered, trees_in, Node};
use crate::span::{count_newlines, lemma_count_newlines_flat, lemma_count_newlines_step, Span};
use crate::text::{str_bytes, CR, LF};

use self::parser::{line_in, Parser};
use self::step::{blocks_of, bom_len, fed, fed_all, last_filled, lemma_first_pos, line_break, lines_from, no_blocks, Blocks};

pub(crate) mod line;
pub(crate) mod parser;
pub(crate) mod step;

verus! {

/// Splits `src` into lines and feeds them to the block parser. A byte order
/// mark is skipped, but offsets count it, so that spans stay relative to the
/// string the caller passed. Every block carries a span that describes the
/// source.
#[verifier::rlimit(40)]
pub(crate) fn parse_blocks(src: &str) -> (nodes: Vec<Node>)
    ensures
        trees_in(encode_utf8(src@), nodes@),
        blocks_in_order(nodes@),
        spans_ordered(nodes@),
        all_rows_unsplit(nodes@),
        all_nested(nodes@),
        forall|i: int| 0 <= i < nodes@.len() ==> (#[trigger] nodes@[i]).span is Some && !(nodes@[i].kind is Raw),
        blocks_of(encode_utf8(src@), nodes@),
{
    let bytes = str_bytes(src);
    let mut parser = Parser::new(Ghost(bytes@));
    let bom: usize = if bytes.len() >= 3 && bytes[0] == 0xEFu8 && bytes[1] == 0xBBu8 && bytes[2] == 0xBFu8 {
        3
    } else {
        0
    };
    proof {
        if bom == 3 {
            assert forall|k: int| 0 <= k < 3 implies bytes@[k] != LF by {}
            lemma_count_newlines_flat(bytes@, 0, 3);
        }
        assert(bytes@.take(0) =~= Seq::<u8>::empty());
    }
    let mut offset: usize = bom;
    let mut index: usize = 0;
    let mut last: Option<Span> = None;
    let ghost lines = lines_from(bytes@, bom_len(bytes@), 0);
    let ghost mut done: Seq<(Seq<u8>, Span)> = Seq::empty();
    let ghost mut trace: Seq<Blocks> = seq![parser.blocks()];
    assert(bom == bom_len(bytes@));
    assert(lines =~= done + lines_from(bytes@, offset as int, index as int));
    // Lines end at `\n`, which is where the terminator's own width turns a
    // line into a byte offset. Only a `\r` before the `\n` is part of the
    // ending; a bare one at the end of the source is content.
    while offset < bytes.len()
        invariant
            bom <= offset <= bytes.len(),
            parser.wf(),
            parser.src@ == bytes@,
            index == count_newlines(bytes@.take(offset as int)),
            index <= offset,
            offset < bytes.len() ==> parser.reach@ < offset,
            last matches Some(l) ==> l.describes(bytes@) && l.end >= parser.reach@,
            last is None ==> parser.reach@ == -1,
            lines == done + lines_from(bytes@, offset as int, index as int),
            0 < offset < bytes.len() ==> bytes@[offset - 1] != CR,
            trace.len() == done.len() + 1,
            trace[0] == no_blocks(),
            trace.last() == parser.blocks(),
            fed_all(trace, done),
            last == last_filled(done),
        decreases bytes.len() - offset,
    {
        let mut p = offset;
        while p < bytes.len() && bytes[p] != LF
            invariant
                offset <= p <= bytes.len(),
                forall|k: int| offset <= k < p ==> bytes@[k] != LF,
            decreases bytes.len() - p,
        {
            p = p + 1;
        }
        let content_end = if p < bytes.len() && p > offset && bytes[p - 1] == CR {
            p - 1
        } else {
            p
        };
        let content = &bytes[offset..content_end];
        let span = Span::line(offset, content_end, index);
        proof {
            lemma_first_pos(bytes@, LF, offset as int);
            assert(p == line_break(bytes@, offset as int));
            assert(lines_from(bytes@, offset as int, index as int) =~= seq![(content@, span)] + lines_from(
                bytes@,
                p + 1,
                index + 1,
            ));
        }
        let ghost before = parser.blocks();
        proof {
            lemma_count_newlines_flat(bytes@, offset as int, content_end as int);
            assert(content@ =~= bytes@.subrange(offset as int, content_end as int));
            assert(crate::span::ends_line(bytes@, content_end as int));
            assert(line_in(bytes@, content@, span));
        }
        // Anything still open at the end ends at the last line that had
        // something on it: a span never includes a line ending.
        if content_end > offset {
            last = Some(span);
        }
        parser.feed(content, span);
        proof {
            let d2 = done.push((content@, span));
            let t2 = trace.push(parser.blocks());
            assert(fed_all(t2, d2)) by {
                assert forall|k: int| 0 <= k < d2.len() implies #[trigger] fed(t2[k], d2[k].0, d2[k].1, t2[k + 1]) by {
                    if k < done.len() {
                        assert(fed(trace[k], done[k].0, done[k].1, trace[k + 1]));
                    }
                }
            }
            assert(d2.drop_last() =~= done);
            assert(lines =~= d2 + lines_from(bytes@, p + 1, index + 1));
            done = d2;
            trace = t2;
        }
        if p < bytes.len() {
            proof {
                lemma_count_newlines_flat(bytes@, offset as int, p as int);
                lemma_count_newlines_step(bytes@, p as int);
            }
            offset = p + 1;
            index = index + 1;
        } else {
            offset = bytes.len();
            assert(lines_from(bytes@, p + 1, index + 1) =~= lines_from(bytes@, offset as int, index as int));
        }
    }
    assert(done =~= lines);
    let nodes = parser.close(last);
    assert(fed_all(trace, lines));
    nodes
}

} // verus!
