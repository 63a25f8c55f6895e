# mog_parser

A parser for the mog markup language, written in Verus: the parsing logic is
executable Rust whose behaviour is stated in `requires`/`ensures` contracts and
proved.

Parsing runs in three passes:

- `src/block/`: splits the source into lines, sorts each line (`line.rs`) and
  builds the block tree with a stack of open blocks (`parser.rs`). Every node
  it builds records the span of source it came from. `step.rs` states what
  each line does to what the parser holds, and `blocks_of` what the pass
  returns for a source.
- `src/inline/`: resolves the delimiters inside each text (`raw.rs`,
  `parser.rs`), attaches link names and footnotes (`attach.rs`) and splits
  table rows into cells (`table.rs`). `step.rs` states each step of the scan
  and, in `nodes_resolved`, what the pass makes of a block tree.
- `src/node/fold.rs`: moves each ``` ``attr: ``` block into the attributes of the
  node that owns it.

`src/node/attribute.rs` reads attribute chains and attribute blocks; the KDL
parsing itself is done by the `kdl` crate, behind the trusted wrappers of
`src/node/kdl.rs`. `src/lib.rs` holds the entry points (`parse`,
`parse_unfolded`, `Document::fold_attributes`) and the laws that tie them
together.

`app/` holds the serializable copy of the document model (`serde`), which
converts to and from the library's types.
