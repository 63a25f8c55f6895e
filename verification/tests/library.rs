use mog_parser::{
    parse, parse_attribute_block, parse_unfolded, Attribute, Delimiter, Delimiters, Document,
    InvalidTaskKind, KdlFailure, MarkerKind, MogError, Node, NodeKind, StructuralMarker, TaskKind, Value,
};

fn walk<'a>(nodes: &'a [Node], out: &mut Vec<&'a Node>) {
    for node in nodes {
        out.push(node);
        walk(&node.children, out);
    }
}

fn nodes(document: &Document) -> Vec<&Node> {
    let mut out = Vec::new();
    walk(&document.body, &mut out);
    out
}

fn line_of(src: &str, offset: usize) -> usize {
    src[..offset].matches('\n').count()
}

/// Every span of both parses is a range of whole lines of `src` that opens
/// with its node's syntax and numbers its lines by the newlines before.
fn assert_spans_describe(src: &str) {
    for document in [parse(src), parse_unfolded(src)] {
        for node in nodes(&document) {
            let Some(span) = node.span else { continue };
            assert!(span.start < span.end && span.end <= src.len(), "{span:?}");
            let text = &src[span.start..span.end];
            match &node.kind {
                NodeKind::Marker(marker) => {
                    assert_eq!(MarkerKind::from_byte(text.as_bytes()[0]), Some(marker.kind))
                }
                NodeKind::Attributes => assert!(text.starts_with("``")),
                _ => {}
            }
            assert!(!text.ends_with('\n'));
            if let Some(next) = src[span.end..].chars().next() {
                assert!(next == '\n' || next == '\r', "{text:?} stops before {next:?}");
            }
            assert_eq!(span.start_line, line_of(src, span.start));
            assert_eq!(span.end_line, line_of(src, span.end));
            if let Some(fence) = node.fence {
                assert_eq!(fence.start, span.start);
                assert_eq!(fence.start_line, fence.end_line);
                assert!(fence.end <= span.end);
            }
            if matches!(node.kind, NodeKind::Marker(_)) && span.end_line > span.start_line {
                assert!(node.fence.is_some(), "{text:?} grew without a fence");
            }
        }
    }
}

const EXAMPLES: [&str; 9] = [
    "# Heading\n\nSome **bold** text\n",
    "=hero:\n``attr:\nimpact 1\n``\n## Abrams\n=\n",
    "#| Name || Type || -| Banana || Fruit ||\n-| Apple\n",
    "``\nlet x = 1;\n\nlet y = 2;\n``\n",
    "- one\n- two\n``attr:\nk 1\n``\n. three\n",
    "> quote with [[link]]((name)) and {{note}}\n",
    "\u{FEFF}# Heading\r\n\r\nbody\r\n",
    "=block:\n    # Inner\n    text\n=\n",
    "``attr:\ntitle \"T\"\n``\n\npara\n``attr:\nk 2\n``\n",
];

#[test]
fn spans_describe_the_source_they_were_parsed_from() {
    for src in EXAMPLES {
        assert_spans_describe(src);
    }
}

#[test]
fn a_parsed_document_holds_no_attribute_node() {
    for src in EXAMPLES {
        let document = parse(src);
        assert!(nodes(&document).iter().all(|node| node.kind != NodeKind::Attributes), "{src:?}");
    }
    let unfolded = parse_unfolded("para\n``attr:\nk 1\n``\n");
    assert!(nodes(&unfolded).iter().any(|node| node.kind == NodeKind::Attributes));
    assert!(unfolded.attributes.is_none());
}

#[test]
fn folding_a_folded_document_changes_nothing() {
    for src in EXAMPLES {
        let once = parse(src);
        let twice = parse(src).fold_attributes();
        assert_eq!(once, twice, "{src:?}");
        assert_eq!(parse_unfolded(src).fold_attributes(), once);
    }
}

#[test]
fn root_attribute_blocks_belong_to_the_document() {
    let src = "``attr:\ntitle \"T\"\n``\n\npara\n";
    let document = parse(src);
    let attributes = document.attributes.as_ref().unwrap();
    assert_eq!(attributes.children.len(), 1);
    assert_eq!(attributes.children[0].name.as_deref(), Some("title"));
    assert_eq!(attributes.blocks.len(), 1);
    let block = attributes.blocks[0];
    assert_eq!(&src[block.start..block.end], "``attr:\ntitle \"T\"\n``");
}

#[test]
fn the_empty_source_is_an_empty_document() {
    let document = parse("");
    assert!(document.body.is_empty());
    assert!(document.attributes.is_none());
}

#[test]
fn table_rows_are_padded_to_the_widest() {
    let document = parse("#| a || b || c\n-| x\n");
    let table = &document.body[0];
    assert_eq!(table.kind, NodeKind::Table);
    assert_eq!(table.children.len(), 2);
    for row in &table.children {
        assert_eq!(row.children.len(), 3);
        for cell in &row.children {
            assert_eq!(cell.kind, NodeKind::Delimiter(Delimiter::TableCell));
        }
    }
    let short = &table.children[1];
    assert!(short.children[1].children.is_empty());
    assert!(short.children[2].children.is_empty());
    assert!(!short.children[0].children.is_empty());
}

#[test]
fn a_row_delimiter_after_a_cell_opens_another_row() {
    let document = parse("#| Name || Type || -| Banana || Fruit ||\n");
    let table = &document.body[0];
    assert_eq!(table.children.len(), 2);
    assert_eq!(table.children[0].kind, NodeKind::Delimiter(Delimiter::TableHeader));
    assert_eq!(table.children[1].kind, NodeKind::Delimiter(Delimiter::TableRow));
    assert!(table.children[0].span.is_some());
    assert!(table.children[1].span.is_none());
    assert_eq!(table.children[0].children.len(), 2);
    assert_eq!(table.children[1].children.len(), 2);
}

#[test]
fn an_escaped_delimiter_is_text() {
    let document = parse("\\**not bold\\**\n");
    assert!(nodes(&document)
        .iter()
        .all(|node| node.kind != NodeKind::Delimiter(Delimiter::Strong)));
    let bold = parse("some **bold** text\n");
    assert!(nodes(&bold)
        .iter()
        .any(|node| node.kind == NodeKind::Delimiter(Delimiter::Strong)));
}

#[test]
fn a_marker_chain_supplies_the_entries() {
    let document = parse("##red: My Heading\n");
    let heading = &document.body[0];
    match heading.kind {
        NodeKind::Marker(marker) => {
            assert_eq!(marker.kind, MarkerKind::Heading);
            assert_eq!(marker.depth, 2);
        }
        _ => panic!("not a marker: {:?}", heading.kind),
    }
    let attributes = heading.attributes.as_ref().unwrap();
    assert_eq!(
        attributes.entries,
        vec![Attribute { name: None, ty: None, value: Value::String("red".to_string()) }]
    );
    assert!(!attributes.is_attribute_chain());
}

#[test]
fn a_verbatim_block_keeps_its_text() {
    let document = parse("``\nlet x = 1;\nlet y = 2;\n``\n");
    let block = &document.body[0];
    assert_eq!(block.kind, NodeKind::Delimiter(Delimiter::Verbatim));
    assert_eq!(block.raw_text(), "let x = 1;\nlet y = 2;");
}

#[test]
fn an_attribute_block_reads_kdl_nodes() {
    let attributes = parse_attribute_block("title \"Mog\"\nversion 2").unwrap();
    assert_eq!(attributes.len(), 2);
    assert_eq!(attributes[0].name.as_deref(), Some("title"));
    match &attributes[0].value {
        Value::Node(node) => {
            assert_eq!(node.entries.len(), 1);
            assert_eq!(node.entries[0].value, Value::String("Mog".to_string()));
            assert!(node.children.is_empty() && node.blocks.is_empty());
        }
        other => panic!("not a node: {other:?}"),
    }
    match &attributes[1].value {
        Value::Node(node) => assert_eq!(node.entries[0].value, Value::Int(2)),
        other => panic!("not a node: {other:?}"),
    }
}

#[test]
fn an_attribute_block_error_names_its_line() {
    let error = parse_attribute_block("a 1\nb 2\nbad =").unwrap_err();
    assert!(error.contains("on line 3 of the block"), "{error}");
    let error = parse_attribute_block("bad =").unwrap_err();
    assert!(error.contains("on line 1 of the block"), "{error}");
}

#[test]
fn delimiters_are_spelled_by_their_pairs() {
    let pairs = [
        (*b"**", Delimiter::Strong),
        (*b"__", Delimiter::Italic),
        (*b"``", Delimiter::Verbatim),
        (*b"~~", Delimiter::Strikethrough),
        (*b"#|", Delimiter::TableHeader),
        (*b"-|", Delimiter::TableRow),
        (*b"||", Delimiter::TableCell),
        (*b"{{", Delimiter::Footnote),
        (*b"}}", Delimiter::Footnote),
        (*b"[[", Delimiter::Link),
        (*b"]]", Delimiter::Link),
        (*b"((", Delimiter::LinkName),
        (*b"))", Delimiter::LinkName),
    ];
    for (pair, delimiter) in pairs {
        assert_eq!(Delimiter::from_bytes(pair), Some(delimiter));
    }
    assert_eq!(Delimiter::from_bytes(*b"*_"), None);
    assert_eq!(Delimiter::from_bytes(*b"ab"), None);
    for (pair, delimiter) in pairs {
        assert_eq!(Delimiter::from_bytes(delimiter.opening()), Some(delimiter));
        if let Some(closing) = delimiter.closing() {
            assert_eq!(Delimiter::from_bytes(closing), Some(delimiter));
        }
        let _ = pair;
    }
}

#[test]
fn delimiter_at_reads_the_first_two_bytes() {
    assert_eq!(Delimiter::at("**bold"), Some(Delimiter::Strong));
    assert_eq!(Delimiter::at("[[x]]"), Some(Delimiter::Link));
    assert_eq!(Delimiter::at("*"), None);
    assert_eq!(Delimiter::at(""), None);
    assert_eq!(Delimiter::at("a**"), None);
}

#[test]
fn delimiters_open_and_close() {
    assert!(Delimiter::Strong.opens("**x"));
    assert!(Delimiter::Strong.closes("**"));
    assert!(Delimiter::Link.opens("[[a"));
    assert!(!Delimiter::Link.opens("]]"));
    assert!(Delimiter::Link.closes("]] after"));
    assert!(!Delimiter::Link.closes("[["));
    assert!(!Delimiter::TableCell.closes("||"));
    assert!(Delimiter::TableCell.opens("||"));
    assert!(!Delimiter::Italic.opens("_"));
}

#[test]
fn delimiter_pairs() {
    assert_eq!(Delimiter::Link.opening(), *b"[[");
    assert_eq!(Delimiter::Link.closing(), Some(*b"]]"));
    assert_eq!(Delimiter::LinkName.closing(), Some(*b"))"));
    assert_eq!(Delimiter::Footnote.closing(), Some(*b"}}"));
    assert_eq!(Delimiter::Strikethrough.closing(), Some(*b"~~"));
    assert_eq!(Delimiter::TableRow.closing(), None);
    assert_eq!(Delimiter::TableHeader.opening(), *b"#|");
    assert!(Delimiter::Strong.is_symmetric());
    assert!(Delimiter::Verbatim.is_symmetric());
    assert!(!Delimiter::Link.is_symmetric());
    assert!(!Delimiter::TableCell.is_symmetric());
    assert_eq!(Delimiter::TableHeader.attribute_boundary(), Some(*b"||"));
    assert_eq!(Delimiter::TableRow.attribute_boundary(), Some(*b"||"));
    assert_eq!(Delimiter::Link.attribute_boundary(), Some(*b"]]"));
    assert_eq!(Delimiter::Strong.attribute_boundary(), Some(*b"**"));
    assert_eq!(Delimiter::TableCell.attribute_boundary(), None);
}

#[test]
fn a_delimiter_set_holds_what_was_added() {
    let none = Delimiters::default();
    assert!(!none.contains(Delimiter::Strong));
    let some = none.with(Delimiter::Strong).with(Delimiter::LinkName);
    assert!(some.contains(Delimiter::Strong));
    assert!(some.contains(Delimiter::LinkName));
    assert!(!some.contains(Delimiter::Link));
    assert!(!some.contains(Delimiter::Italic));
    assert!(Delimiters::none().with(Delimiter::Footnote).contains(Delimiter::Footnote));
}

#[test]
fn marker_kinds_come_from_their_bytes() {
    assert_eq!(MarkerKind::from_byte(b'#'), Some(MarkerKind::Heading));
    assert_eq!(MarkerKind::from_byte(b'-'), Some(MarkerKind::UnorderedList));
    assert_eq!(MarkerKind::from_byte(b'.'), Some(MarkerKind::OrderedList));
    assert_eq!(MarkerKind::from_byte(b'>'), Some(MarkerKind::Blockquote));
    assert_eq!(MarkerKind::from_byte(b'='), Some(MarkerKind::Free));
    assert_eq!(MarkerKind::from_byte(b'*'), None);
}

#[test]
fn structural_markers_round_trip_through_their_bytes() {
    for marker in [
        StructuralMarker::Heading,
        StructuralMarker::UnorderedList,
        StructuralMarker::OrderedList,
        StructuralMarker::Blockquote,
        StructuralMarker::ThematicBreak,
    ] {
        assert_eq!(StructuralMarker::from_byte(marker.byte()), Some(marker));
    }
    assert_eq!(StructuralMarker::ThematicBreak.byte(), b'=');
    assert_eq!(StructuralMarker::from_byte(b'x'), None);
}

#[test]
fn task_kinds_from_characters() {
    assert_eq!(TaskKind::try_from(' '), Ok(TaskKind::Undone));
    assert_eq!(TaskKind::try_from('x'), Ok(TaskKind::Done));
    assert_eq!(TaskKind::try_from('~'), Ok(TaskKind::InProgress));
    assert_eq!(TaskKind::try_from('?'), Ok(TaskKind::Uncertain));
    assert_eq!(TaskKind::try_from('!'), Ok(TaskKind::Urgent));
    assert_eq!(TaskKind::try_from('-'), Ok(TaskKind::Cancelled));
    assert_eq!(TaskKind::try_from('a'), Ok(TaskKind::Custom('a')));
    assert_eq!(TaskKind::try_from('😀'), Ok(TaskKind::Custom('😀')));
    for refused in ['[', ']', '{', '}', '\n', '\r'] {
        assert_eq!(TaskKind::try_from(refused), Err(InvalidTaskKind(refused)));
    }
}

#[test]
fn a_kdl_failure_is_an_error_by_its_message() {
    let failure = KdlFailure { diagnostic: None, display: "Failed to parse KDL document".to_string() };
    assert_eq!(MogError::from(failure), MogError::Kdl("Failed to parse KDL document".to_string()));
}


fn raw_outside_verbatim(nodes: &[Node]) -> bool {
    nodes.iter().any(|node| {
        matches!(node.kind, NodeKind::Raw(_))
            || (node.kind != NodeKind::Delimiter(Delimiter::Verbatim) && raw_outside_verbatim(&node.children))
    })
}

#[test]
fn no_raw_text_is_left_but_verbatim_content() {
    for src in EXAMPLES {
        assert!(!raw_outside_verbatim(&parse(src).body), "{src:?}");
        assert!(!raw_outside_verbatim(&parse_unfolded(src).body), "{src:?}");
    }
    let inline = parse("some ``code`` here\n");
    assert!(nodes(&inline)
        .iter()
        .any(|node| node.kind == NodeKind::Delimiter(Delimiter::Verbatim)));
}

#[test]
fn a_nested_owner_records_its_blocks_in_source_order() {
    let src = "=hero:\n``attr:\na 1\n``\n``attr:\nb 2\n``\n``attr:\nc 3\n``\n=\n";
    let document = parse(src);
    let blocks = &document.body[0].attributes.as_ref().unwrap().blocks;
    assert_eq!(blocks.len(), 3);
    for pair in blocks.windows(2) {
        assert!(pair[0].end < pair[1].start);
    }
    assert_eq!(&src[blocks[2].start..blocks[2].end], "``attr:\nc 3\n``");
}

#[test]
fn text_split_by_a_removed_block_is_one_run_again() {
    let src = "some text ``attr: k 1`` more\n";
    let unfolded = parse_unfolded(src);
    let paragraph = &unfolded.body[0];
    assert_eq!(paragraph.kind, NodeKind::Paragraph);
    assert_eq!(paragraph.children.len(), 3);
    assert_eq!(paragraph.children[1].kind, NodeKind::Attributes);

    let folded = parse(src);
    let paragraph = &folded.body[0];
    assert_eq!(paragraph.children.len(), 1);
    assert_eq!(paragraph.children[0].kind, NodeKind::Text("some text more".to_string()));
    let attributes = paragraph.attributes.as_ref().unwrap();
    assert_eq!(attributes.children.len(), 1);
    assert_eq!(attributes.children[0].name.as_deref(), Some("k"));
    assert!(attributes.entries.is_empty());
    assert!(attributes.blocks.is_empty());
}

#[test]
fn an_unclosed_attribute_block_stays_verbatim() {
    let document = parse("``attr:\nk 1\n");
    assert_eq!(document.body.len(), 1);
    assert_eq!(document.body[0].kind, NodeKind::Delimiter(Delimiter::Verbatim));
    assert!(document.attributes.is_none());
    assert_eq!(document.body[0].raw_text(), "k 1");
}

#[test]
fn an_attribute_block_that_is_not_kdl_stays_verbatim() {
    let document = parse("``attr:\nbad =\n``\n");
    assert_eq!(document.body.len(), 1);
    assert_eq!(document.body[0].kind, NodeKind::Delimiter(Delimiter::Verbatim));
    assert_eq!(document.body[0].raw_text(), "bad =");
    assert!(document.attributes.is_none());
}

#[test]
fn a_blank_line_ends_a_paragraph() {
    let document = parse("one\ntwo\n\nthree\n");
    assert_eq!(document.body.len(), 2);
    assert_eq!(document.body[0].kind, NodeKind::Paragraph);
    assert_eq!(document.body[1].kind, NodeKind::Paragraph);
    let first = document.body[0].span.unwrap();
    assert_eq!((first.start_line, first.end_line), (0, 1));
    let second = document.body[1].span.unwrap();
    assert_eq!((second.start_line, second.end_line), (3, 3));
}

#[test]
fn a_markers_depth_is_the_run_of_its_byte() {
    let src = "### Three\n  ## Two\n";
    let document = parse(src);
    for node in &document.body {
        let span = node.span.unwrap();
        match node.kind {
            NodeKind::Marker(marker) => {
                let byte = src.as_bytes()[span.start];
                let run = src.as_bytes()[span.start..].iter().take_while(|b| **b == byte).count();
                assert_eq!(marker.depth, run);
            }
            _ => panic!("not a marker: {:?}", node.kind),
        }
    }
    assert_eq!(document.body.len(), 2);
}

#[test]
fn a_link_name_attaches_to_the_link_before_it() {
    let document = parse("see [[target]]((the name)) here\n");
    let links: Vec<&Node> = nodes(&document)
        .into_iter()
        .filter(|node| matches!(node.kind, NodeKind::Link(_)))
        .collect();
    assert_eq!(links.len(), 1);
    assert_eq!(links[0].kind, NodeKind::Link("target".to_string()));
    assert!(links[0]
        .children
        .iter()
        .any(|child| child.kind == NodeKind::Delimiter(Delimiter::LinkName)));
}

#[test]
fn root_nodes_come_in_source_order() {
    for src in EXAMPLES {
        for document in [parse(src), parse_unfolded(src)] {
            let spans: Vec<_> = document.body.iter().map(|node| node.span.expect("root span")).collect();
            for pair in spans.windows(2) {
                assert!(pair[0].end < pair[1].start, "{src:?}: {pair:?}");
            }
        }
    }
}

fn assert_children_in_order(nodes: &[Node], src: &str) {
    for node in nodes {
        let spans: Vec<_> = node.children.iter().filter_map(|child| child.span).collect();
        for pair in spans.windows(2) {
            assert!(pair[0].end < pair[1].start, "{src:?}: {pair:?}");
        }
        assert_children_in_order(&node.children, src);
    }
}

#[test]
fn children_with_spans_come_in_source_order() {
    let src = "=hero:\n## Abrams\n``attr:\nimpact 1\n``\n## Bebop\n=\n";
    let document = parse_unfolded(src);
    let hero = &document.body[0];
    let spanned: Vec<_> = hero.children.iter().filter_map(|child| child.span).collect();
    assert!(spanned.len() >= 2, "{:?}", hero.children);
    for src in EXAMPLES.iter().copied().chain([src]) {
        for document in [parse(src), parse_unfolded(src)] {
            assert_children_in_order(&document.body, src);
        }
    }
}

#[test]
fn text_lines_join_with_a_space() {
    let document = parse("one\ntwo\n");
    assert_eq!(document.body.len(), 1);
    let paragraph = &document.body[0];
    assert_eq!(paragraph.kind, NodeKind::Paragraph);
    assert_eq!(paragraph.children.len(), 1);
    assert_eq!(paragraph.children[0].kind, NodeKind::Text("one two".to_string()));
}

#[test]
fn a_marker_alone_opens_a_block_and_closes_it() {
    let src = "=hero:\ntext\n=\n";
    let document = parse(src);
    assert_eq!(document.body.len(), 1);
    let hero = &document.body[0];
    assert!(matches!(hero.kind, NodeKind::Marker(_)));
    let span = hero.span.unwrap();
    assert_eq!(&src[span.start..span.end], "=hero:\ntext\n=");
    let fence = hero.fence.unwrap();
    assert_eq!(&src[fence.start..fence.end], "=hero:");
    assert_eq!(hero.children.len(), 1);
    assert_eq!(hero.children[0].kind, NodeKind::Paragraph);
}

#[test]
fn a_delimiter_open_around_the_text_does_not_open_inside_it() {
    let src = "**\nsome **text**\n**\n";
    let document = parse(src);
    assert_eq!(document.body.len(), 1);
    let strong = &document.body[0];
    assert_eq!(strong.kind, NodeKind::Delimiter(Delimiter::Strong));
    assert_eq!(strong.children.len(), 1);
    let paragraph = &strong.children[0];
    assert_eq!(paragraph.kind, NodeKind::Paragraph);
    assert_eq!(paragraph.children.len(), 1);
    assert_eq!(paragraph.children[0].kind, NodeKind::Text("some **text**".to_string()));
}

#[test]
fn a_crlf_span_stops_before_the_carriage_return() {
    let src = "# A\r\n# B\r\n";
    let document = parse(src);
    assert_eq!(document.body.len(), 2);
    for node in &document.body {
        let span = node.span.unwrap();
        assert_eq!(src.as_bytes()[span.end], b'\r');
        assert!(!src[span.start..span.end].contains('\r'));
    }
}

#[test]
fn kdl_attributes_record_no_blocks_of_their_own() {
    let attributes = parse_attribute_block("outer {\n  inner 1\n}").unwrap();
    fn check(attribute: &Attribute) {
        if let Value::Node(node) = &attribute.value {
            assert!(node.blocks.is_empty());
            node.entries.iter().for_each(check);
            node.children.iter().for_each(check);
        }
    }
    assert!(!attributes.is_empty());
    attributes.iter().for_each(check);
}
