//! Block-level parsing on the examples of the language's own description.

use mog_parser::{parse, Document, Node, NodeKind};

/// The tree of a document with every position dropped: what two parses of
/// differently placed text can share.
fn shape(nodes: &[Node]) -> Vec<(String, usize, Vec<String>)> {
    let mut out = Vec::new();
    for node in nodes {
        out.push((
            format!("{:?} {:?}", node.kind, node.attributes.as_ref().map(|a| (&a.entries, &a.children))),
            node.children.len(),
            shape(&node.children).into_iter().map(|s| format!("{s:?}")).collect(),
        ));
    }
    out
}

fn document_shape(document: &Document) -> Vec<(String, usize, Vec<String>)> {
    shape(&document.body)
}

#[test]
fn bom() {
    // a leading U+FEFF is stripped and not considered content, so the
    // BOM-prefixed document parses to the same tree as the bare one; spans
    // take part in equality and stay offsets into the string as given, so
    // the trees are compared without them
    let bare = parse("# My heading\n");
    let with_bom = parse("\u{FEFF}# My heading\n");
    assert_eq!(document_shape(&bare), document_shape(&with_bom));
    assert_eq!(bare.attributes, with_bom.attributes);
    let span = with_bom.body[0].span.unwrap();
    assert_eq!(span.start, bare.body[0].span.unwrap().start + 3);
}

#[test]
fn whitespace_equivalence() {
    // trailing whitespace on the second line is intentional
    let plain = parse("# My heading\n");
    let padded = parse("  # My heading  \n");
    assert_eq!(document_shape(&plain), document_shape(&padded));
    assert_eq!(plain.attributes, padded.attributes);
}

#[test]
fn metadata() {
    let examples = [r#"--
title "My Document"
authors "John" "Jane"
date "2026-04-15"
version 1
--
"#];
    for src in examples {
        let document = parse(src);
        assert!(!document.body.is_empty());
        for node in &document.body {
            let span = node.span.unwrap();
            assert!(span.start < span.end && span.end <= src.len());
        }
    }
}

#[test]
fn attributes() {
    let examples = [r#"##red:My Heading
##red: My Heading

- list item with **red: BOLD** content
"#];
    for src in examples {
        let document = parse(src);
        assert!(document.body.iter().all(|node| node.kind != NodeKind::Attributes));
        let heading = &document.body[0];
        assert!(matches!(heading.kind, NodeKind::Marker(_)));
        assert!(heading.attributes.is_some());
    }
}
