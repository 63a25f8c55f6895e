//! Table rows: the raw text of a row split into cells, and the rows padded
//! to the width of the widest.

use vstd::prelude::*;
use vstd::utf8::*;

use crate::inline::raw::{closed_content, parse_raw, take_until_closing};
use crate::inline::step::{delimiter_chain, delimiter_node, inline_nodes, same_but_children};
use crate::node::attribute::{parse_delimiter_attributes, Owned};
use crate::node::delimiter::{delimiter_at, Delimiter, Delimiters};
use crate::node::fold::reversed;
use crate::node::tree::{
    all_text_resolved, all_unplaced, all_within, blocks_in_order, blocks_within, is_block, lemma_unplaced_tree_in, no_spans,
    recorded_before, row_unsplit, spans_ordered, trees_in, Node, NodeKind,
};
use crate::inline::follows_spans;
use crate::span::Span;
use crate::text::{str_bytes, BACKSLASH};
use crate::whitespace::{indent, leading_ws, trim, trim_spec};

verus! {

/// A cell: a `||` node without attributes or positions.
pub open spec fn is_cell(n: Node) -> bool {
    &&& n.kind == NodeKind::Delimiter(Delimiter::TableCell)
    &&& n.attributes is None
    &&& n.span is None
    &&& n.fence is None
    &&& all_unplaced(n.children@)
    &&& all_text_resolved(n.children@)
}

/// A cell with nothing in it, as padding adds.
pub open spec fn is_empty_cell(n: Node) -> bool {
    is_cell(n) && n.children@.len() == 0
}

/// The children a row keeps once its raw text, the last child, is taken.
pub open spec fn kept_children(row: Node) -> Seq<Node> {
    if row.children@.len() > 0 {
        row.children@.drop_last()
    } else {
        Seq::empty()
    }
}

/// A row that resolving made of `origin`: the first keeps the origin's kind,
/// attributes and positions and the children before its text; a later one
/// is a header or row delimiter found in the text, without positions. All
/// children past those kept are cells.
pub open spec fn resolved_row(n: Node, origin: Node, first: bool) -> bool {
    let kept = if first {
        kept_children(origin)
    } else {
        Seq::empty()
    };
    &&& !(n.kind is Attributes)
    &&& n.children@.len() >= kept.len()
    &&& n.children@.take(kept.len() as int) == kept
    &&& forall|k: int| kept.len() <= k < n.children@.len() ==> is_cell(#[trigger] n.children@[k])
    &&& first ==> {
        &&& n.kind == origin.kind
        &&& n.attributes == origin.attributes
        &&& n.span == origin.span
        &&& n.fence == origin.fence
    }
    &&& !first ==> {
        &&& (n.kind == NodeKind::Delimiter(Delimiter::TableHeader) || n.kind == NodeKind::Delimiter(
            Delimiter::TableRow,
        ))
        &&& n.span is None
        &&& n.fence is None
        &&& (n.attributes matches Some(a) ==> a.blocks@.len() == 0)
    }
}

/// A cell holding the inline nodes of `content`, trimmed.
pub open spec fn cell_of(content: Seq<u8>, ancestors: Delimiters, c: Node) -> bool {
    &&& c.kind == NodeKind::Delimiter(Delimiter::TableCell)
    &&& c.attributes is None
    &&& c.span is None
    &&& c.fence is None
    &&& inline_nodes(trim_spec(content), ancestors, c.children@)
}

/// `n` is `m` with a cell of `content` added as its last child.
pub open spec fn cell_added(m: Node, content: Seq<u8>, ancestors: Delimiters, n: Node) -> bool {
    &&& same_but_children(m, n)
    &&& n.children@.len() == m.children@.len() + 1
    &&& n.children@.drop_last() == m.children@
    &&& cell_of(content, ancestors, n.children@.last())
}

/// Where the scan of a row's text stands: the rows it has finished, the
/// row it fills, and where the cell being scanned began.
#[verifier::ext_equal]
pub struct RowScan {
    pub rows: Seq<Node>,
    pub current: Node,
    pub cell: int,
}

/// One step of the scan at `pos`: an escaped delimiter is cell content, a
/// verbatim span is skipped whole, and a `||` ends the cell; a header or
/// row delimiter where the next cell would start then opens a new row, with
/// the attribute chain after it.
pub open spec fn row_step(s: RowScan, text: Seq<u8>, pos: int, ancestors: Delimiters, t: RowScan, next: int) -> bool {
    let here = delimiter_at(text.skip(pos));
    if text[pos] == BACKSLASH && delimiter_at(text.skip(pos + 1)) is Some {
        t == s && next == pos + 3
    } else if here == Some(Delimiter::Verbatim) {
        t == s && next == closed_content(text, pos + 2, Delimiter::Verbatim.opening_spec()).1
    } else if here == Some(Delimiter::TableCell) {
        let after = pos + 2;
        let start = after + leading_ws(text.skip(after));
        let opened = delimiter_at(text.skip(start));
        exists|grown: Node|
            #![trigger cell_added(s.current, text.subrange(s.cell, pos), ancestors, grown)]
            cell_added(s.current, text.subrange(s.cell, pos), ancestors, grown) && if opened == Some(Delimiter::TableHeader)
                || opened == Some(Delimiter::TableRow) {
                exists|attrs: Owned, rest: Seq<u8>|
                    #![trigger delimiter_chain(text.skip(start + 2), opened.unwrap(), attrs, rest)]
                    delimiter_chain(text.skip(start + 2), opened.unwrap(), attrs, rest) && t.rows == s.rows.push(grown)
                        && delimiter_node(t.current, opened.unwrap(), attrs) && next == text.len() - rest.len() && t.cell == next
            } else {
                t == RowScan { rows: s.rows, current: grown, cell: after } && next == after
            }
    } else {
        t == s && next == pos + 1
    }
}

/// The scan from `pos` on leaves `rows`: at the end the rest of the text,
/// trimmed, is a last cell where it is not empty, and the row being filled
/// is the last row.
pub open spec fn row_run(s: RowScan, text: Seq<u8>, pos: int, ancestors: Delimiters, rows: Seq<Node>) -> bool
    decreases text.len() - pos,
{
    if pos < 0 || pos >= text.len() {
        let trailing = trim_spec(text.subrange(s.cell, text.len() as int));
        if trailing.len() != 0 {
            exists|n: Node| #![trigger cell_added(s.current, trailing, ancestors, n)] cell_added(s.current, trailing, ancestors, n) && rows == s.rows.push(n)
        } else {
            rows == s.rows.push(s.current)
        }
    } else {
        exists|t: RowScan, next: int|
            #![trigger row_step(s, text, pos, ancestors, t, next)]
            row_step(s, text, pos, ancestors, t, next) && pos < next <= text.len() && row_run(t, text, next, ancestors, rows)
    }
}

/// The raw text of a row: its last child's, where that is raw text.
pub open spec fn row_text(row: Node) -> Seq<u8> {
    if row.children@.len() > 0 && row.children@.last().kind is Raw {
        match row.children@.last().kind {
            NodeKind::Raw(t) => encode_utf8(t@),
            _ => Seq::empty(),
        }
    } else {
        Seq::empty()
    }
}

/// The rows one row of a table becomes: an attribute row stays as it is;
/// any other gives up its last child, its raw text, which is scanned into
/// cells.
pub open spec fn row_split(row: Node, ancestors: Delimiters, rows: Seq<Node>) -> bool {
    if row.kind is Attributes {
        rows == seq![row]
    } else {
        exists|first: Node|
            #![trigger row_run(RowScan { rows: Seq::empty(), current: first, cell: 0 }, row_text(row), 0, ancestors, rows)]
            same_but_children(row, first) && first.children@ == kept_children(row) && row_run(
                RowScan { rows: Seq::empty(), current: first, cell: 0 },
                row_text(row),
                0,
                ancestors,
                rows,
            )
    }
}

/// `out` is the rows of `rows`, each split, one after another.
pub open spec fn rows_split(rows: Seq<Node>, ancestors: Delimiters, out: Seq<Node>) -> bool
    decreases rows.len(),
{
    if rows.len() == 0 {
        out.len() == 0
    } else {
        exists|last: Seq<Node>|
            #![trigger row_split(rows.last(), ancestors, last)]
            row_split(rows.last(), ancestors, last) && last.len() <= out.len() && out.skip(out.len() - last.len()) == last
                && rows_split(rows.drop_last(), ancestors, out.take(out.len() - last.len()))
    }
}

/// Splitting one more row adds the rows it becomes after those before.
proof fn lemma_rows_split_step(rows: Seq<Node>, i: int, ancestors: Delimiters, before: Seq<Node>, added: Seq<Node>)
    requires
        0 <= i < rows.len(),
        rows_split(rows.take(i), ancestors, before),
        row_split(rows[i], ancestors, added),
    ensures
        rows_split(rows.take(i + 1), ancestors, before + added),
{
    let r = rows.take(i + 1);
    let out = before + added;
    assert(r.last() == rows[i]);
    assert(r.drop_last() =~= rows.take(i));
    assert(out.skip(out.len() - added.len()) =~= added);
    assert(out.take(out.len() - added.len()) =~= before);
    assert(row_split(r.last(), ancestors, added));
}

/// `r` is `rows` with every row but the attribute ones padded to the widest.
pub open spec fn table_padded(rows: Seq<Node>, r: Seq<Node>) -> bool {
    &&& r.len() == rows.len()
    &&& forall|i: int| 0 <= i < rows.len() && (#[trigger] rows[i]).kind is Attributes ==> r[i] == rows[i]
    &&& forall|i: int| 0 <= i < rows.len() && !((#[trigger] rows[i]).kind is Attributes) ==> padded(rows[i], r[i], widest(rows))
}

/// The most children any of `rows` has.
pub open spec fn widest(rows: Seq<Node>) -> nat
    decreases rows.len(),
{
    if rows.len() == 0 {
        0
    } else {
        let w = widest(rows.drop_last());
        let l = rows.last().children@.len();
        if l > w {
            l
        } else {
            w
        }
    }
}

/// `after` is `before` grown with empty cells to `width` children.
pub open spec fn padded(before: Node, after: Node, width: nat) -> bool {
    &&& after.kind == before.kind
    &&& after.attributes == before.attributes
    &&& after.span == before.span
    &&& after.fence == before.fence
    &&& after.children@.len() == width
    &&& after.children@.take(before.children@.len() as int) == before.children@
    &&& forall|k: int| before.children@.len() <= k < width ==> is_empty_cell(#[trigger] after.children@[k])
}

proof fn lemma_widest(rows: Seq<Node>)
    ensures
        forall|i: int| 0 <= i < rows.len() ==> (#[trigger] rows[i]).children@.len() <= widest(rows),
    decreases rows.len(),
{
    if rows.len() > 0 {
        lemma_widest(rows.drop_last());
        assert forall|i: int| 0 <= i < rows.len() implies (#[trigger] rows[i]).children@.len() <= widest(rows) by {
            if i < rows.len() - 1 {
                assert(rows.drop_last()[i] == rows[i]);
            }
        }
    }
}

proof fn lemma_cell_unplaced(c: Node)
    requires
        is_cell(c),
    ensures
        c.unplaced(),
{
}

/// A resolved row is located wherever its origin is.
proof fn lemma_resolved_row_in(n: Node, origin: Node, first: bool, src: Seq<u8>)
    requires
        resolved_row(n, origin, first),
        first ==> origin.tree_in(src),
    ensures
        n.tree_in(src),
{
    let kept = if first {
        kept_children(origin)
    } else {
        Seq::empty()
    };
    assert forall|k: int| 0 <= k < n.children@.len() implies (#[trigger] n.children@[k]).tree_in(src) by {
        if k < kept.len() {
            assert(n.children@.take(kept.len() as int)[k] == n.children@[k]);
            assert(kept[k] == origin.children@[k]);
        } else {
            lemma_cell_unplaced(n.children@[k]);
            lemma_unplaced_tree_in(n.children@[k], src);
        }
    }
    assert(n.covers_blocks(n.children@)) by {
        assert forall|k: int|
            0 <= k < n.children@.len() && (#[trigger] n.children@[k]).kind is Attributes
                && n.children@[k].span is Some && n.span is Some implies n.span.unwrap().covers(
            n.children@[k].span.unwrap(),
        ) by {
            assert(k < kept.len());
            assert(n.children@.take(kept.len() as int)[k] == n.children@[k]);
            assert(kept[k] == origin.children@[k]);
        }
    }
    assert forall|i: int, j: int|
        0 <= i < j < n.children@.len() && is_block(#[trigger] n.children@[i]) && is_block(#[trigger] n.children@[j]) implies n.children@[i].span.unwrap().end
            < n.children@[j].span.unwrap().start by {
        assert(j < kept.len());
        assert(n.children@.take(kept.len() as int)[i] == n.children@[i]);
        assert(n.children@.take(kept.len() as int)[j] == n.children@[j]);
        assert(kept[i] == origin.children@[i]);
        assert(kept[j] == origin.children@[j]);
    }
    assert forall|i: int, j: int|
        0 <= i < j < n.children@.len() && (#[trigger] n.children@[i]).span is Some && (#[trigger] n.children@[j]).span
            is Some implies n.children@[i].span.unwrap().end < n.children@[j].span.unwrap().start by {
        if j >= kept.len() {
            lemma_cell_unplaced(n.children@[j]);
        }
        assert(n.children@.take(kept.len() as int)[i] == n.children@[i]);
        assert(n.children@.take(kept.len() as int)[j] == n.children@[j]);
        assert(kept[i] == origin.children@[i]);
        assert(kept[j] == origin.children@[j]);
    }
    if first {
        assert(origin.located_in(src));
    }
    if n.attributes is Some {
        let a = n.attributes.unwrap();
        assert forall|k: int, m: int|
            0 <= k < a.blocks@.len() && 0 <= m < n.children@.len() && is_block(#[trigger] n.children@[m]) implies (
            #[trigger] a.blocks@[k]).end < n.children@[m].span.unwrap().start by {
            assert(m < kept.len());
            assert(n.children@.take(kept.len() as int)[m] == n.children@[m]);
            assert(kept[m] == origin.children@[m]);
        }
    }
}

/// A row resolved from one that held no more than its text has no raw text
/// left.
proof fn lemma_resolved_row_resolved(n: Node, origin: Node, first: bool)
    requires
        resolved_row(n, origin, first),
        row_unsplit(origin),
    ensures
        n.text_resolved(),
{
    let kept = if first {
        kept_children(origin)
    } else {
        Seq::empty()
    };
    assert(kept.len() == 0);
    assert forall|k: int| 0 <= k < n.children@.len() implies (#[trigger] n.children@[k]).text_resolved() by {
        assert(is_cell(n.children@[k]));
        let c = n.children@[k];
        assert forall|m: int| 0 <= m < c.children@.len() implies (#[trigger] c.children@[m]).text_resolved() by {
            assert(all_text_resolved(c.children@));
        }
    }
}

/// What resolving `row` gives keeps the trees located and the attribute
/// blocks within their owner.
proof fn lemma_resolved_rows_keep(row: Node, rows: Seq<Node>)
    requires
        row.kind is Attributes ==> rows == seq![row],
        !(row.kind is Attributes) ==> {
            &&& rows.len() >= 1
            &&& resolved_row(rows[0], row, true)
            &&& forall|k: int| 1 <= k < rows.len() ==> resolved_row(#[trigger] rows[k], row, false)
        },
    ensures
        forall|src: Seq<u8>| row.tree_in(src) ==> trees_in(src, rows),
        forall|o: Option<Span>| blocks_within(o, seq![row]) ==> blocks_within(o, rows),
{
    assert forall|src: Seq<u8>| row.tree_in(src) implies trees_in(src, rows) by {
        if !(row.kind is Attributes) {
            assert forall|k: int| 0 <= k < rows.len() implies (#[trigger] rows[k]).tree_in(src) by {
                lemma_resolved_row_in(rows[k], row, k == 0, src);
            }
        } else {
            assert(rows[0] == row);
        }
    }
    assert forall|o: Option<Span>| blocks_within(o, seq![row]) implies blocks_within(o, rows) by {
        if row.kind is Attributes {
            assert(rows =~= seq![row]);
        } else {
            assert forall|k: int|
                0 <= k < rows.len() && (#[trigger] rows[k]).kind is Attributes && rows[k].span is Some
                    && o is Some implies o.unwrap().covers(rows[k].span.unwrap()) by {
                assert(resolved_row(rows[k], row, k == 0));
            }
        }
    }
}

/// Pushing a cell keeps a row resolved.
proof fn lemma_push_cell_keeps(before: Node, after: Node, origin: Node, first: bool)
    requires
        resolved_row(before, origin, first),
        after.kind == before.kind,
        after.attributes == before.attributes,
        after.span == before.span,
        after.fence == before.fence,
        after.children@ == before.children@.push(after.children@.last()),
        is_cell(after.children@.last()),
    ensures
        resolved_row(after, origin, first),
{
    let kept = if first {
        kept_children(origin)
    } else {
        Seq::empty()
    };
    assert(after.children@.take(kept.len() as int) =~= before.children@.take(kept.len() as int));
    assert forall|k: int| kept.len() <= k < after.children@.len() implies is_cell(#[trigger] after.children@[k]) by {
        if k < before.children@.len() {
            assert(after.children@[k] == before.children@[k]);
        }
    }
}

/// Adds a cell holding the inline nodes of `content`, trimmed.
fn push_cell(row: &mut Node, content: &[u8], ancestors: Delimiters)
    ensures
        final(row).kind == old(row).kind,
        final(row).attributes == old(row).attributes,
        final(row).span == old(row).span,
        final(row).fence == old(row).fence,
        final(row).children@ == old(row).children@.push(final(row).children@.last()),
        is_cell(final(row).children@.last()),
        cell_added(*old(row), content@, ancestors, *final(row)),
{
    let ghost before = *row;
    let ghost raw = content@;
    let content = trim(content);
    let mut cell = Node::empty(NodeKind::Delimiter(Delimiter::TableCell));
    cell.children = parse_raw(content, ancestors);
    row.push_child(cell);
    proof {
        assert(row.children@.drop_last() =~= before.children@);
        assert(cell_of(raw, ancestors, cell));
    }
}

/// Splits a row's raw text into cells at each `||`. An escaped delimiter is
/// cell content, a verbatim span is opaque, and a header or row delimiter
/// where the next cell would start opens a new row.
fn resolve_row(row: Node, ancestors: Delimiters) -> (rows: Vec<Node>)
    ensures
        row.kind is Attributes ==> rows@ == seq![row],
        !(row.kind is Attributes) ==> {
            &&& rows@.len() >= 1
            &&& resolved_row(rows@[0], row, true)
            &&& forall|k: int| 1 <= k < rows@.len() ==> resolved_row(#[trigger] rows@[k], row, false)
        },
        row_split(row, ancestors, rows@),
{
    if row.is_attributes() {
        let rows = vec![row];
        assert(rows@ =~= seq![row]);
        return rows;
    }
    let ghost origin = row;
    let mut current = row;
    // the row's only child is its raw text, taken here rather than copied
    let raw: Option<String> = match current.children.pop() {
        Some(child) => match child.kind {
            NodeKind::Raw(t) => Some(t),
            _ => None,
        },
        None => None,
    };
    let empty: Vec<u8> = Vec::new();
    let text: &[u8] = match &raw {
        Some(t) => str_bytes(t.as_str()),
        None => empty.as_slice(),
    };
    proof {
        assert(current.children@.take(kept_children(origin).len() as int) =~= kept_children(origin));
        assert(current.children@ =~= kept_children(origin));
        assert(text@ == row_text(origin));
    }
    let mut rows: Vec<Node> = Vec::new();
    let mut pos: usize = 0;
    // where the cell being scanned began
    let mut cell: usize = 0;
    let ghost first = current;
    assert(rows@ =~= Seq::<Node>::empty());
    while pos < text.len()
        invariant
            cell <= pos <= text.len(),
            !(origin.kind is Attributes),
            rows@.len() == 0 ==> resolved_row(current, origin, true),
            rows@.len() > 0 ==> resolved_row(current, origin, false) && resolved_row(rows@[0], origin, true),
            forall|k: int| 1 <= k < rows@.len() ==> resolved_row(#[trigger] rows@[k], origin, false),
            forall|r: Seq<Node>|
                #![trigger row_run(RowScan { rows: rows@, current, cell: cell as int }, text@, pos as int, ancestors, r)]
                row_run(RowScan { rows: rows@, current, cell: cell as int }, text@, pos as int, ancestors, r) ==> row_split(
                    origin,
                    ancestors,
                    r,
                ),
        decreases text.len() - pos,
    {
        let ghost s = RowScan { rows: rows@, current, cell: cell as int };
        let ghost at = pos as int;
        assert(text@.subrange(at, text@.len() as int) =~= text@.skip(at));
        // an escaped delimiter is cell content
        if text[pos] == BACKSLASH && Delimiter::at_bytes(&text[pos + 1..text.len()]).is_some() {
            proof {
                assert(text@.subrange(at + 1, text@.len() as int) =~= text@.skip(at + 1));
            }
            pos = pos + 3;
            proof {
                lemma_row_step_back(s, s, text@, at, pos as int, ancestors, origin);
            }
            continue;
        }
        proof {
            if text@[at] == BACKSLASH {
                assert(text@.subrange(at + 1, text@.len() as int) =~= text@.skip(at + 1));
            }
        }
        match Delimiter::at_bytes(&text[pos..text.len()]) {
            // a verbatim span is opaque, so a || inside it does not end the cell
            Some(Delimiter::Verbatim) => {
                let (_, after) = take_until_closing(text, pos + 2, Delimiter::Verbatim.opening());
                pos = after;
                proof {
                    lemma_row_step_back(s, s, text@, at, pos as int, ancestors, origin);
                }
                continue;
            },
            Some(Delimiter::TableCell) => {},
            _ => {
                pos = pos + 1;
                proof {
                    lemma_row_step_back(s, s, text@, at, pos as int, ancestors, origin);
                }
                continue;
            },
        }
        let ghost before = current;
        push_cell(&mut current, &text[cell..pos], ancestors);
        let ghost grown = current;
        proof {
            lemma_push_cell_keeps(before, current, origin, rows@.len() == 0);
            assert(cell_added(before, text@.subrange(s.cell, at), ancestors, grown));
        }
        pos = pos + 2;
        cell = pos;
        // a row delimiter where the next cell would start opens a new row
        let start = pos + indent(&text[pos..text.len()]);
        proof {
            assert(text@.subrange(pos as int, text@.len() as int) =~= text@.skip(pos as int));
            assert(text@.subrange(start as int, text@.len() as int) =~= text@.skip(start as int));
        }
        let mut opened = false;
        if let Some(delimiter) = Delimiter::at_bytes(&text[start..text.len()]) {
            if delimiter == Delimiter::TableHeader || delimiter == Delimiter::TableRow {
                let (attributes, remainder) = parse_delimiter_attributes(&text[start + 2..text.len()], delimiter);
                proof {
                    assert(text@.subrange(start + 2, text@.len() as int) =~= text@.skip(start + 2));
                    assert(delimiter_chain(text@.skip(start + 2), delimiter, attributes, remainder@));
                }
                rows.push(current);
                current = Node::new(NodeKind::Delimiter(delimiter), attributes);
                proof {
                    assert(current.children@.take(0) =~= Seq::<Node>::empty());
                }
                pos = text.len() - remainder.len();
                cell = pos;
                opened = true;
                proof {
                    assert(row_step(s, text@, at, ancestors, RowScan { rows: rows@, current, cell: cell as int }, pos as int));
                }
            }
        }
        proof {
            if !opened {
                assert(row_step(s, text@, at, ancestors, RowScan { rows: rows@, current, cell: cell as int }, pos as int));
            }
            lemma_row_step_back(s, RowScan { rows: rows@, current, cell: cell as int }, text@, at, pos as int, ancestors, origin);
        }
    }
    let ghost s = RowScan { rows: rows@, current, cell: cell as int };
    let trailing = trim(&text[cell..text.len()]);
    if trailing.len() != 0 {
        let ghost before = current;
        push_cell(&mut current, trailing, ancestors);
        proof {
            lemma_push_cell_keeps(before, current, origin, rows@.len() == 0);
        }
    }
    rows.push(current);
    proof {
        assert(row_run(s, text@, pos as int, ancestors, rows@));
    }
    rows
}

/// A step of the scan from `pos` to `next` carries what the rest of the
/// text leaves back to the row the scan began with.
proof fn lemma_row_step_back(s: RowScan, t: RowScan, text: Seq<u8>, pos: int, next: int, ancestors: Delimiters, origin: Node)
    requires
        0 <= pos < next <= text.len(),
        row_step(s, text, pos, ancestors, t, next),
        forall|r: Seq<Node>|
            #![trigger row_run(s, text, pos, ancestors, r)]
            row_run(s, text, pos, ancestors, r) ==> row_split(origin, ancestors, r),
    ensures
        forall|r: Seq<Node>|
            #![trigger row_run(t, text, next, ancestors, r)]
            row_run(t, text, next, ancestors, r) ==> row_split(origin, ancestors, r),
{
    assert forall|r: Seq<Node>| #![trigger row_run(t, text, next, ancestors, r)] row_run(t, text, next, ancestors, r) implies row_split(
        origin,
        ancestors,
        r,
    ) by {
        assert(row_run(s, text, pos, ancestors, r));
    }
}

/// Padding keeps a row located wherever it was.
proof fn lemma_padded_in(before: Node, after: Node, width: nat, src: Seq<u8>)
    requires
        padded(before, after, width),
        before.children@.len() <= width,
        before.tree_in(src),
    ensures
        after.tree_in(src),
{
    let n = before.children@.len() as int;
    assert forall|k: int| 0 <= k < after.children@.len() implies (#[trigger] after.children@[k]).tree_in(src) by {
        if k < n {
            assert(after.children@.take(n)[k] == after.children@[k]);
        } else {
            lemma_cell_unplaced(after.children@[k]);
            lemma_unplaced_tree_in(after.children@[k], src);
        }
    }
    assert(after.covers_blocks(after.children@)) by {
        assert forall|k: int|
            0 <= k < after.children@.len() && (#[trigger] after.children@[k]).kind is Attributes
                && after.children@[k].span is Some && after.span is Some implies after.span.unwrap().covers(
            after.children@[k].span.unwrap(),
        ) by {
            assert(k < n);
            assert(after.children@.take(n)[k] == after.children@[k]);
        }
    }
    assert(before.located_in(src));
    assert forall|i: int, j: int|
        0 <= i < j < after.children@.len() && is_block(#[trigger] after.children@[i]) && is_block(#[trigger] after.children@[j]) implies after.children@[i].span.unwrap().end
            < after.children@[j].span.unwrap().start by {
        assert(j < n);
        assert(after.children@.take(n)[i] == after.children@[i]);
        assert(after.children@.take(n)[j] == after.children@[j]);
    }
    assert forall|i: int, j: int|
        0 <= i < j < after.children@.len() && (#[trigger] after.children@[i]).span is Some && (#[trigger] after.children@[j]).span
            is Some implies after.children@[i].span.unwrap().end < after.children@[j].span.unwrap().start by {
        if j >= n {
            assert(is_empty_cell(after.children@[j]));
        }
        assert(after.children@.take(n)[i] == after.children@[i]);
        assert(after.children@.take(n)[j] == after.children@[j]);
    }
    if after.attributes is Some {
        let a = after.attributes.unwrap();
        assert forall|k: int, m: int|
            0 <= k < a.blocks@.len() && 0 <= m < after.children@.len() && is_block(#[trigger] after.children@[m]) implies (
            #[trigger] a.blocks@[k]).end < after.children@[m].span.unwrap().start by {
            assert(m < n);
            assert(after.children@.take(n)[m] == after.children@[m]);
        }
    }
}

/// Padding keeps a row resolved.
proof fn lemma_padded_resolved(before: Node, after: Node, width: nat)
    requires
        padded(before, after, width),
        before.children@.len() <= width,
        before.text_resolved(),
    ensures
        after.text_resolved(),
{
    let n = before.children@.len() as int;
    if after.kind != NodeKind::Delimiter(Delimiter::Verbatim) {
        assert forall|k: int| 0 <= k < after.children@.len() implies (#[trigger] after.children@[k]).text_resolved() by {
            if k < n {
                assert(after.children@.take(n)[k] == after.children@[k]);
                assert(before.children@[k].text_resolved());
            } else {
                assert(is_empty_cell(after.children@[k]));
            }
        }
    }
}

/// Grows every row but the attribute ones with empty cells to the width of
/// the widest, so that a table has as many columns in each row. The width
/// is the maximum, so this only ever grows a row.
fn pad_table(rows: Vec<Node>) -> (r: Vec<Node>)
    ensures
        r@.len() == rows@.len(),
        forall|i: int| 0 <= i < rows@.len() && (#[trigger] rows@[i]).kind is Attributes ==> r@[i] == rows@[i],
        forall|i: int|
            0 <= i < rows@.len() && !((#[trigger] rows@[i]).kind is Attributes) ==> padded(
                rows@[i],
                r@[i],
                widest(rows@),
            ),
{
    let mut width: usize = 0;
    let mut i: usize = 0;
    while i < rows.len()
        invariant
            i <= rows@.len(),
            width == widest(rows@.take(i as int)),
        decreases rows@.len() - i,
    {
        assert(rows@.take(i + 1).drop_last() =~= rows@.take(i as int));
        if rows[i].children.len() > width {
            width = rows[i].children.len();
        }
        i = i + 1;
    }
    assert(rows@.take(i as int) =~= rows@);
    proof {
        lemma_widest(rows@);
    }
    let ghost orig = rows@;
    let mut rest = reversed(rows);
    let mut result: Vec<Node> = Vec::new();
    while rest.len() > 0
        invariant
            rest@.len() + result@.len() == orig.len(),
            forall|j: int| 0 <= j < rest@.len() ==> rest@[j] == orig[orig.len() - 1 - j],
            width == widest(orig),
            forall|i: int| 0 <= i < orig.len() ==> (#[trigger] orig[i]).children@.len() <= widest(orig),
            forall|k: int| 0 <= k < result@.len() && (#[trigger] orig[k]).kind is Attributes ==> result@[k] == orig[k],
            forall|k: int|
                0 <= k < result@.len() && !((#[trigger] orig[k]).kind is Attributes) ==> padded(
                    orig[k],
                    result@[k],
                    widest(orig),
                ),
        decreases rest@.len(),
    {
        let node = rest.pop().unwrap();
        let ghost k = result@.len() as int;
        assert(node == orig[k]);
        if node.is_attributes() {
            result.push(node);
        } else {
            let Node { kind, attributes, children, span, fence } = node;
            let mut children = children;
            let ghost c0 = children@;
            assert(children@.take(c0.len() as int) =~= c0);
            while children.len() < width
                invariant
                    c0.len() <= children@.len() <= width,
                    children@.take(c0.len() as int) == c0,
                    forall|j: int| c0.len() <= j < children@.len() ==> is_empty_cell(#[trigger] children@[j]),
                decreases width - children@.len(),
            {
                let ghost before = children@;
                children.push(Node::empty(NodeKind::Delimiter(Delimiter::TableCell)));
                assert(children@.take(c0.len() as int) =~= before.take(c0.len() as int));
                assert forall|j: int| c0.len() <= j < children@.len() implies is_empty_cell(#[trigger] children@[j]) by {
                    if j < before.len() {
                        assert(children@[j] == before[j]);
                    }
                }
            }
            result.push(Node { kind, attributes, children, span, fence });
        }
        assert forall|j: int| 0 <= j < result@.len() && (#[trigger] orig[j]).kind is Attributes implies result@[j] == orig[j] by {}
    }
    result
}

/// Resolves the rows of a table into cells, splitting a row where the text
/// opens another, then pads the rows to a common width.
pub(crate) fn resolve_table(rows: Vec<Node>, ancestors: Delimiters) -> (r: Vec<Node>)
    ensures
        forall|src: Seq<u8>| #![trigger trees_in(src, r@)] trees_in(src, rows@) ==> trees_in(src, r@),
        forall|o: Option<Span>| #![trigger blocks_within(o, r@)] blocks_within(o, rows@) ==> blocks_within(o, r@),
        blocks_in_order(rows@) ==> blocks_in_order(r@),
        forall|o: Owned| #![trigger recorded_before(o, rows@)] recorded_before(o, rows@) ==> recorded_before(o, r@),
        (forall|i: int| 0 <= i < rows@.len() ==> row_unsplit(#[trigger] rows@[i])) ==> all_text_resolved(r@),
        spans_ordered(rows@) ==> spans_ordered(r@),
        forall|s: Span| #![trigger all_within(rows@, s)] all_within(rows@, s) ==> all_within(r@, s),
        no_spans(rows@) ==> no_spans(r@),
        forall|i: int, j: int|
            #![trigger r@[i], r@[j]]
            0 <= i < r@.len() && 0 <= j < r@.len() && !(r@[i].kind is Attributes) ==> r@[j].children@.len()
                <= r@[i].children@.len(),
        exists|split: Seq<Node>| #![trigger rows_split(rows@, ancestors, split)] rows_split(rows@, ancestors, split) && table_padded(split, r@),
{
    let ghost orig = rows@;
    assert(orig.len() <= usize::MAX) by {
        assert(rows.len() == orig.len());
    }
    let mut rest = reversed(rows);
    let mut resolved: Vec<Node> = Vec::new();
    let mut i: usize = 0;
    while rest.len() > 0
        invariant
            rest@.len() + i == orig.len(),
            orig.len() <= usize::MAX,
            forall|j: int| 0 <= j < rest@.len() ==> rest@[j] == orig[orig.len() - 1 - j],
            forall|src: Seq<u8>|
                #![trigger trees_in(src, orig)]
                trees_in(src, orig) ==> trees_in(src, resolved@),
            forall|o: Option<Span>|
                #![trigger blocks_within(o, orig)]
                blocks_within(o, orig) ==> blocks_within(o, resolved@),
            blocks_in_order(orig) ==> {
                &&& blocks_in_order(resolved@)
                &&& forall|m: int, j: int|
                    0 <= m < resolved@.len() && i <= j < orig.len() && is_block(#[trigger] resolved@[m]) && is_block(
                        #[trigger] orig[j],
                    ) ==> resolved@[m].span.unwrap().end < orig[j].span.unwrap().start
            },
            forall|o: Owned| #![trigger recorded_before(o, orig)] recorded_before(o, orig) ==> recorded_before(o, resolved@),
            (forall|k: int| 0 <= k < orig.len() ==> row_unsplit(#[trigger] orig[k])) ==> all_text_resolved(resolved@),
            spans_ordered(orig) ==> spans_ordered(resolved@) && follows_spans(resolved@, orig, i as int),
            forall|s: Span| #![trigger all_within(orig, s)] all_within(orig, s) ==> all_within(resolved@, s),
            no_spans(orig) ==> no_spans(resolved@),
            rows_split(orig.take(i as int), ancestors, resolved@),
        decreases rest@.len(),
    {
        let row = rest.pop().unwrap();
        assert(row == orig[i as int]);
        let ghost before = resolved@;
        let mut out = resolve_row(row, ancestors);
        let ghost added = out@;
        proof {
            lemma_resolved_rows_keep(row, added);
        }
        resolved.append(&mut out);
        proof {
            lemma_rows_split_step(orig, i as int, ancestors, before, added);
            assert(resolved@ =~= before + added);
        }
        proof {
            assert forall|src: Seq<u8>| #![trigger trees_in(src, orig)] trees_in(src, orig) implies trees_in(src, resolved@) by {
                assert(row.tree_in(src));
                assert(trees_in(src, added));
                assert forall|k: int| 0 <= k < resolved@.len() implies (#[trigger] resolved@[k]).tree_in(src) by {
                    if k < before.len() {
                        assert(resolved@[k] == before[k]);
                    } else {
                        assert(resolved@[k] == added[k - before.len()]);
                    }
                }
            }
            assert forall|o: Option<Span>| #![trigger blocks_within(o, orig)] blocks_within(o, orig) implies blocks_within(o, resolved@) by {
                assert(blocks_within(o, seq![row])) by {
                    assert forall|k: int|
                        0 <= k < 1 && (#[trigger] seq![row][k]).kind is Attributes && seq![row][k].span is Some
                            && o is Some implies o.unwrap().covers(seq![row][k].span.unwrap()) by {
                        assert(seq![row][k] == orig[i as int]);
                    }
                }
                assert(blocks_within(o, added));
                assert forall|k: int|
                    0 <= k < resolved@.len() && (#[trigger] resolved@[k]).kind is Attributes && resolved@[k].span is Some
                        && o is Some implies o.unwrap().covers(resolved@[k].span.unwrap()) by {
                    if k < before.len() {
                        assert(resolved@[k] == before[k]);
                    } else {
                        assert(resolved@[k] == added[k - before.len()]);
                    }
                }
            }
        }
        proof {
            assert forall|m: int| 0 <= m < added.len() && (#[trigger] added[m]).span is Some implies m == 0
                && added[m].span == orig[i as int].span by {
                if !(row.kind is Attributes) {
                    assert(resolved_row(added[m], row, m == 0));
                }
            }
            assert forall|k: int| 0 <= k < resolved@.len() implies (#[trigger] resolved@[k]).span == (if k < before.len() {
                before[k].span
            } else {
                added[k - before.len()].span
            }) by {
                if k < before.len() {
                    assert(resolved@[k] == before[k]);
                } else {
                    assert(resolved@[k] == added[k - before.len()]);
                }
            }
            if spans_ordered(orig) {
                assert forall|m: int, l: int|
                    0 <= m < l < resolved@.len() && (#[trigger] resolved@[m]).span is Some && (#[trigger] resolved@[l]).span
                        is Some implies resolved@[m].span.unwrap().end < resolved@[l].span.unwrap().start by {
                    if l >= before.len() {
                        assert(added[l - before.len()].span is Some);
                        if m >= before.len() {
                            assert(added[m - before.len()].span is Some);
                        }
                    }
                }
                assert forall|m: int, j: int|
                    0 <= m < resolved@.len() && i + 1 <= j < orig.len() && (#[trigger] resolved@[m]).span is Some && (
                    #[trigger] orig[j]).span is Some implies resolved@[m].span.unwrap().end < orig[j].span.unwrap().start by {
                    if m >= before.len() {
                        assert(added[m - before.len()].span is Some);
                    }
                }
            }
            assert forall|s: Span| #![trigger all_within(orig, s)] all_within(orig, s) implies all_within(resolved@, s) by {
                assert(all_within(before, s));
                assert forall|k: int| 0 <= k < resolved@.len() && (#[trigger] resolved@[k]).span is Some implies s.covers(
                    resolved@[k].span.unwrap(),
                ) by {
                    if k >= before.len() {
                        assert(added[k - before.len()].span is Some);
                    }
                }
            }
            if no_spans(orig) {
                assert forall|k: int| 0 <= k < resolved@.len() implies (#[trigger] resolved@[k]).span is None by {
                    if k >= before.len() {
                        if added[k - before.len()].span is Some {
                            assert(orig[i as int].span is None);
                        }
                    }
                }
            }
            if forall|k: int| 0 <= k < orig.len() ==> row_unsplit(#[trigger] orig[k]) {
                assert(row_unsplit(orig[i as int]));
                assert forall|k: int| 0 <= k < resolved@.len() implies (#[trigger] resolved@[k]).text_resolved() by {
                    if k < before.len() {
                        assert(resolved@[k] == before[k]);
                    } else {
                        let m = k - before.len();
                        assert(resolved@[k] == added[m]);
                        if row.kind is Attributes {
                            assert(added[m] == row);
                        } else {
                            lemma_resolved_row_resolved(added[m], row, m == 0);
                        }
                    }
                }
            }
            assert forall|m: int|
                0 <= m < added.len() && is_block(#[trigger] added[m]) implies added[m] == orig[i as int] by {
                if !(row.kind is Attributes) {
                    assert(resolved_row(added[m], row, m == 0));
                }
            }
            assert forall|o: Owned| #![trigger recorded_before(o, orig)] recorded_before(o, orig) implies recorded_before(o, resolved@) by {
                assert(recorded_before(o, before));
                if o is Some {
                    let a = o.unwrap();
                    assert forall|k: int, m: int|
                        0 <= k < a.blocks@.len() && 0 <= m < resolved@.len() && is_block(#[trigger] resolved@[m]) implies (
                        #[trigger] a.blocks@[k]).end < resolved@[m].span.unwrap().start by {
                        if m < before.len() {
                            assert(resolved@[m] == before[m]);
                        } else {
                            assert(resolved@[m] == added[m - before.len()]);
                        }
                    }
                }
            }
            if blocks_in_order(orig) {
                assert forall|m: int, l: int|
                    0 <= m < l < resolved@.len() && is_block(#[trigger] resolved@[m]) && is_block(#[trigger] resolved@[l]) implies resolved@[m].span.unwrap().end
                        < resolved@[l].span.unwrap().start by {
                    if l < before.len() {
                        assert(resolved@[m] == before[m]);
                        assert(resolved@[l] == before[l]);
                    } else {
                        assert(resolved@[l] == added[l - before.len()]);
                        assert(m < before.len()) by {
                            if m >= before.len() {
                                assert(resolved@[m] == added[m - before.len()]);
                                assert(added.len() == 1);
                            }
                        }
                        assert(resolved@[m] == before[m]);
                    }
                }
                assert forall|m: int, j: int|
                    0 <= m < resolved@.len() && i + 1 <= j < orig.len() && is_block(#[trigger] resolved@[m]) && is_block(
                        #[trigger] orig[j],
                    ) implies resolved@[m].span.unwrap().end < orig[j].span.unwrap().start by {
                    if m < before.len() {
                        assert(resolved@[m] == before[m]);
                    } else {
                        assert(resolved@[m] == added[m - before.len()]);
                    }
                }
            }
        }
        i = i + 1;
    }
    let ghost all = resolved@;
    let r = pad_table(resolved);
    proof {
        assert(orig.take(orig.len() as int) =~= orig);
        assert(rows_split(orig, ancestors, all) && table_padded(all, r@));
        lemma_widest(all);
        assert forall|src: Seq<u8>| #![trigger trees_in(src, r@)] trees_in(src, orig) implies trees_in(src, r@) by {
            assert forall|k: int| 0 <= k < r@.len() implies (#[trigger] r@[k]).tree_in(src) by {
                assert(all[k].tree_in(src));
                if !(all[k].kind is Attributes) {
                    lemma_padded_in(all[k], r@[k], widest(all), src);
                }
            }
        }
        assert forall|o: Option<Span>| #![trigger blocks_within(o, r@)] blocks_within(o, orig) implies blocks_within(o, r@) by {
            assert forall|k: int|
                0 <= k < r@.len() && (#[trigger] r@[k]).kind is Attributes && r@[k].span is Some
                    && o is Some implies o.unwrap().covers(r@[k].span.unwrap()) by {
                if !(all[k].kind is Attributes) {
                    assert(padded(all[k], r@[k], widest(all)));
                }
            }
        }
        assert forall|o: Owned| #![trigger recorded_before(o, orig)] recorded_before(o, orig) implies recorded_before(o, r@) by {
            assert(recorded_before(o, all));
            if o is Some {
                let a = o.unwrap();
                assert forall|k: int, m: int|
                    0 <= k < a.blocks@.len() && 0 <= m < r@.len() && is_block(#[trigger] r@[m]) implies (
                    #[trigger] a.blocks@[k]).end < r@[m].span.unwrap().start by {
                    if !(all[m].kind is Attributes) {
                        assert(padded(all[m], r@[m], widest(all)));
                    }
                }
            }
        }
        if forall|k: int| 0 <= k < orig.len() ==> row_unsplit(#[trigger] orig[k]) {
            assert forall|k: int| 0 <= k < r@.len() implies (#[trigger] r@[k]).text_resolved() by {
                assert(all[k].text_resolved());
                if !(all[k].kind is Attributes) {
                    lemma_padded_resolved(all[k], r@[k], widest(all));
                }
            }
        }
        assert forall|k: int| 0 <= k < r@.len() implies (#[trigger] r@[k]).span == all[k].span by {
            if !(all[k].kind is Attributes) {
                assert(padded(all[k], r@[k], widest(all)));
            }
        }
        if blocks_in_order(rows@) {
            assert forall|m: int, l: int|
                0 <= m < l < r@.len() && is_block(#[trigger] r@[m]) && is_block(#[trigger] r@[l]) implies r@[m].span.unwrap().end
                    < r@[l].span.unwrap().start by {
                if !(all[m].kind is Attributes) {
                    assert(padded(all[m], r@[m], widest(all)));
                }
                if !(all[l].kind is Attributes) {
                    assert(padded(all[l], r@[l], widest(all)));
                }
            }
        }
        assert forall|i: int, j: int|
            #![trigger r@[i], r@[j]]
            0 <= i < r@.len() && 0 <= j < r@.len() && !(r@[i].kind is Attributes) implies r@[j].children@.len()
                <= r@[i].children@.len() by {
            if all[i].kind is Attributes {
                assert(r@[i] == all[i]);
            }
            assert(padded(all[i], r@[i], widest(all)));
            if all[j].kind is Attributes {
                assert(r@[j] == all[j]);
            } else {
                assert(padded(all[j], r@[j], widest(all)));
            }
        }
    }
    r
}

/// A verbatim span in a row's text is opaque: the scan from its opening
/// pair leaves the same rows as the scan from just past its closer, so a
/// `||` inside the span ends no cell.
pub proof fn law_row_verbatim_span_opaque(s: RowScan, text: Seq<u8>, pos: int, ancestors: Delimiters, rows: Seq<Node>)
    requires
        0 <= pos,
        pos + 2 <= text.len(),
        text[pos] == crate::text::BACKTICK,
        text[pos + 1] == crate::text::BACKTICK,
    ensures
        pos + 2 <= closed_content(text, pos + 2, Delimiter::Verbatim.opening_spec()).1 <= text.len(),
        row_run(s, text, pos, ancestors, rows) <==> row_run(
            s,
            text,
            closed_content(text, pos + 2, Delimiter::Verbatim.opening_spec()).1,
            ancestors,
            rows,
        ),
{
    let closing = Delimiter::Verbatim.opening_spec();
    crate::inline::raw::lemma_closed_content_bounds(text, pos + 2, closing);
    let end = closed_content(text, pos + 2, closing).1;
    assert(delimiter_at(text.skip(pos)) == Some(Delimiter::Verbatim));
    assert(row_step(s, text, pos, ancestors, s, end));
    if row_run(s, text, pos, ancestors, rows) {
        assert(exists|t: RowScan, next: int|
            #![trigger row_step(s, text, pos, ancestors, t, next)]
            row_step(s, text, pos, ancestors, t, next) && pos < next <= text.len() && row_run(t, text, next, ancestors, rows));
        let (t, next) = choose|t: RowScan, next: int|
            #![trigger row_step(s, text, pos, ancestors, t, next)]
            row_step(s, text, pos, ancestors, t, next) && pos < next <= text.len() && row_run(t, text, next, ancestors, rows);
        assert(text[pos] != crate::text::BACKSLASH);
        assert(row_step(s, text, pos, ancestors, t, next));
        assert(t == s);
        assert(next == end);
    }
}

} // verus!
