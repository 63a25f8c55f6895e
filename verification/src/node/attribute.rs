use vstd::prelude::*;
use vstd::utf8::*;

use crate::node::delimiter::{delimiter_at, Delimiter};
use crate::node::kdl::{kdl_document, kdl_entry, parse_document, parse_entry, KdlFailure};
use crate::span::{count_newlines, Span};
use crate::text::{
    decimal, decimal_bytes, lemma_valid_concat, lossy_utf8, push_bytes, str_bytes, string_from, BACKSLASH, COLON, CR, HASH, LF, QUOTE, SLASH,
    SPACE, TAB,
};

verus! {

/// One attribute: a KDL entry from a chain, or a KDL node from an `attr`
/// block, whose value then holds the node's own entries and children.
#[derive(Debug, PartialEq)]
pub struct Attribute {
    pub name: Option<String>,
    pub ty: Option<String>,
    pub value: Value,
}

#[derive(Debug, PartialEq)]
pub enum Value {
    Null,
    Bool(bool),
    Int(i128),
    /// A KDL float, kept as the bit pattern of its `f64`.
    Float(u64),
    String(String),
    Node(Attributes),
}

/// Attributes follow KDL's model of a node: a chain supplies the node's
/// entries (arguments and properties) and ``attr: blocks supply its children.
/// The two are separate namespaces, so ``color="red"`` in a chain and
/// ``color "red"`` in a block coexist rather than override one another.
#[derive(Debug, PartialEq)]
pub struct Attributes {
    pub entries: Vec<Attribute>,
    pub children: Vec<Attribute>,
    /// Where the ``attr: blocks that supplied `children` are in the source, in
    /// source order. Only block-form blocks appear; one written inside a line
    /// has no span to give.
    pub blocks: Vec<Span>,
}

/// No attributes nested in this one's value record a block: a KDL node has
/// no ``attr: blocks of its own, only an owner in the tree does.
pub open spec fn blockless(a: Attribute) -> bool
    decreases a,
{
    match a.value {
        Value::Node(n) => {
            &&& n.blocks@.len() == 0
            &&& forall|i: int| 0 <= i < n.entries@.len() ==> blockless(#[trigger] n.entries@[i])
            &&& forall|i: int| 0 <= i < n.children@.len() ==> blockless(#[trigger] n.children@[i])
        },
        _ => true,
    }
}

/// None of `attrs` holds nested attributes that record a block.
pub open spec fn all_blockless(attrs: Seq<Attribute>) -> bool {
    forall|i: int| 0 <= i < attrs.len() ==> blockless(#[trigger] attrs[i])
}

/// Attributes are a minority of nodes, so an owner stores them boxed.
pub type Owned = Option<Box<Attributes>>;

impl Default for Attributes {
    fn default() -> (a: Attributes)
        ensures
            a.entries@.len() == 0,
            a.children@.len() == 0,
            a.blocks@.len() == 0,
    {
        Attributes { entries: Vec::new(), children: Vec::new(), blocks: Vec::new() }
    }
}

/// The bytes of the sole attribute that marks a verbatim block as an
/// attribute block: `attr`.
pub open spec fn attr_word() -> Seq<u8> {
    seq![97u8, 116u8, 116u8, 114u8]
}

/// Both attributes carry a name, and it is the same name.
pub open spec fn same_name(a: Attribute, b: Attribute) -> bool {
    a.name is Some && b.name is Some && a.name.unwrap()@ == b.name.unwrap()@
}

/// Where the first attribute named like `entry` stands, if any.
pub open spec fn position_of_name(entries: Seq<Attribute>, entry: Attribute) -> Option<int>
    decreases entries.len(),
{
    if entries.len() == 0 {
        None
    } else if same_name(entries[0], entry) {
        Some(0)
    } else {
        match position_of_name(entries.drop_first(), entry) {
            Some(i) => Some(i + 1),
            None => None,
        }
    }
}

proof fn lemma_position_of_name(entries: Seq<Attribute>, entry: Attribute, i: int)
    requires
        0 <= i <= entries.len(),
        forall|j: int| 0 <= j < i ==> !same_name(#[trigger] entries[j], entry),
    ensures
        i < entries.len() && same_name(entries[i], entry) ==> position_of_name(entries, entry)
            == Some(i),
        i == entries.len() ==> position_of_name(entries, entry) is None,
    decreases i,
{
    if i > 0 {
        let rest = entries.drop_first();
        assert forall|j: int| 0 <= j < i - 1 implies !same_name(#[trigger] rest[j], entry) by {
            assert(rest[j] == entries[j + 1]);
        }
        lemma_position_of_name(rest, entry, i - 1);
        if i < entries.len() {
            assert(rest[i - 1] == entries[i]);
        }
    }
}

impl Attribute {
    /// The bare `attr` marker: no name, no type, the string `attr`.
    pub open spec fn is_attr_spec(self) -> bool {
        &&& self.name is None
        &&& self.ty is None
        &&& self.value matches Value::String(s) && encode_utf8(s@) == attr_word()
    }

    pub(crate) fn is_attr(&self) -> (r: bool)
        ensures
            r == self.is_attr_spec(),
    {
        if self.name.is_some() || self.ty.is_some() {
            return false;
        }
        match &self.value {
            Value::String(s) => {
                let b = str_bytes(s.as_str());
                let r = b.len() == 4 && b[0] == 97u8 && b[1] == 116u8 && b[2] == 116u8 && b[3] == 114u8;
                proof {
                    if r {
                        assert(b@ =~= attr_word());
                    }
                }
                r
            },
            _ => false,
        }
    }
}

impl Attributes {
    /// The chain is the bare `attr` marker and nothing else.
    pub open spec fn is_attribute_chain_spec(self) -> bool {
        self.entries@.len() == 1 && self.entries@[0].is_attr_spec()
    }

    /// Whether the chain consists solely of the bare `attr` marker.
    pub fn is_attribute_chain(&self) -> (r: bool)
        ensures
            r == self.is_attribute_chain_spec(),
    {
        self.entries.len() == 1 && self.entries[0].is_attr()
    }

    /// KDL resolves a repeated property to its rightmost value, in the place
    /// of the first; arguments are unnamed and accumulate.
    pub(crate) fn push_entry(&mut self, entry: Attribute)
        ensures
            match position_of_name(old(self).entries@, entry) {
                Some(i) => final(self).entries@ == old(self).entries@.update(i, entry),
                None => final(self).entries@ == old(self).entries@.push(entry),
            },
            final(self).children == old(self).children,
            final(self).blocks == old(self).blocks,
    {
        match position_of(&self.entries, &entry) {
            Some(i) => self.entries.set(i, entry),
            None => self.entries.push(entry),
        }
    }
}

/// Where the first entry named like `entry` stands.
fn position_of(entries: &Vec<Attribute>, entry: &Attribute) -> (p: Option<usize>)
    ensures
        match position_of_name(entries@, *entry) {
            Some(i) => p == Some(i as usize) && 0 <= i < entries@.len(),
            None => p is None,
        },
{
    match &entry.name {
        None => {
            proof {
                lemma_position_of_name(entries@, *entry, entries@.len() as int);
            }
            None
        },
        Some(name) => {
            let mut i: usize = 0;
            while i < entries.len()
                invariant
                    entry.name == Some(*name),
                    i <= entries.len(),
                    forall|j: int| 0 <= j < i ==> !same_name(#[trigger] entries@[j], *entry),
                decreases entries.len() - i,
            {
                let same = match &entries[i].name {
                    Some(existing) => *existing == *name,
                    None => false,
                };
                if same {
                    proof {
                        lemma_position_of_name(entries@, *entry, i as int);
                    }
                    return Some(i);
                }
                i = i + 1;
            }
            proof {
                lemma_position_of_name(entries@, *entry, i as int);
            }
            None
        },
    }
}

/// The owner's attributes once `children` from an ``attr: block are pushed
/// onto them: children of successive blocks append, and the block's span, if
/// it has one, is recorded. An empty block still records its span, but one
/// with neither children nor span leaves the owner as it was.

pub(crate) fn push_children(owner: &mut Owned, children: Vec<Attribute>, span: Option<Span>)
    ensures
        (children@.len() == 0 && span is None) ==> *final(owner) == *old(owner),
        !(children@.len() == 0 && span is None) ==> {
            &&& (*final(owner)) is Some
            &&& (*final(owner)).unwrap().entries@ == (match *old(owner) {
                Some(a) => a.entries@,
                None => Seq::empty(),
            })
            &&& (*final(owner)).unwrap().children@ == (match *old(owner) {
                Some(a) => a.children@,
                None => Seq::empty(),
            }) + children@
            &&& (*final(owner)).unwrap().blocks@ == (match *old(owner) {
                Some(a) => a.blocks@,
                None => Seq::empty(),
            }) + (match span {
                Some(s) => seq![s],
                None => Seq::empty(),
            })
        },
{
    if children.len() == 0 && span.is_none() {
        return;
    }
    let mut attributes = match owner.take() {
        Some(a) => *a,
        None => Attributes::default(),
    };
    let mut children = children;
    attributes.children.append(&mut children);
    if let Some(s) = span {
        attributes.blocks.push(s);
    }
    proof {
        if span is None {
            assert(attributes.blocks@ =~= attributes.blocks@ + Seq::<Span>::empty());
        }
    }
    *owner = Some(Box::new(attributes));
}

/// Whether the chain consists solely of the bare `attr` marker: ``attr must
/// be the only attribute; a chain such as ``rust:attr: is a verbatim block
/// whose content is preserved rather than consumed.
pub(crate) fn owned_is_attribute_chain(owned: &Owned) -> (r: bool)
    ensures
        r == (owned matches Some(a) && a.is_attribute_chain_spec()),
{
    match owned {
        Some(a) => a.is_attribute_chain(),
        None => false,
    }
}


/// Scans an entry of an attribute chain from `i`. Outside a quoted string a
/// `:` ends the entry, unless it opens `://` as in a URL, and whitespace or a
/// line ending means the chain holds no further entry. Inside quotes a `\`
/// skips the byte after it, a `"` ends the string and a line ending means no
/// entry.
pub open spec fn entry_end_from(b: Seq<u8>, i: int, quoted: bool) -> Option<int>
    decreases b.len() - i,
{
    if i < 0 || i >= b.len() {
        None
    } else if quoted {
        if b[i] == QUOTE {
            entry_end_from(b, i + 1, false)
        } else if b[i] == LF || b[i] == CR {
            None
        } else if b[i] == BACKSLASH {
            if i + 1 >= b.len() {
                None
            } else {
                entry_end_from(b, i + 2, true)
            }
        } else {
            entry_end_from(b, i + 1, true)
        }
    } else {
        if b[i] == COLON {
            if i + 2 < b.len() && b[i + 1] == SLASH && b[i + 2] == SLASH {
                None
            } else {
                Some(i)
            }
        } else if b[i] == SPACE || b[i] == TAB || b[i] == LF || b[i] == CR {
            None
        } else if b[i] == QUOTE {
            entry_end_from(b, i + 1, true)
        } else {
            entry_end_from(b, i + 1, false)
        }
    }
}

proof fn lemma_entry_end_bounds(b: Seq<u8>, i: int, quoted: bool)
    ensures
        entry_end_from(b, i, quoted) matches Some(e) ==> i <= e < b.len() && b[e] == COLON,
    decreases b.len() - i,
{
    if 0 <= i < b.len() {
        if quoted {
            if b[i] == QUOTE {
                lemma_entry_end_bounds(b, i + 1, false);
            } else if b[i] == BACKSLASH && i + 1 < b.len() {
                lemma_entry_end_bounds(b, i + 2, true);
            } else {
                lemma_entry_end_bounds(b, i + 1, true);
            }
        } else if b[i] == QUOTE {
            lemma_entry_end_bounds(b, i + 1, true);
        } else {
            lemma_entry_end_bounds(b, i + 1, false);
        }
    }
}

/// Different rules for the end of a KDL entry once inside a quote: returns
/// the position just past the closing quote.
fn quoted_attribute_end(bytes: &[u8], start: usize) -> (r: Option<usize>)
    requires
        start <= bytes.len(),
    ensures
        entry_end_from(bytes@, start as int, true) == (match r {
            Some(j) => entry_end_from(bytes@, j as int, false),
            None => None,
        }),
        r matches Some(j) ==> start < j <= bytes.len(),
{
    let mut index = start;
    while index < bytes.len()
        invariant
            start <= index <= bytes.len(),
            entry_end_from(bytes@, start as int, true) == entry_end_from(bytes@, index as int, true),
        decreases bytes.len() - index,
    {
        let byte = bytes[index];
        if byte == QUOTE {
            return Some(index + 1);
        } else if byte == LF || byte == CR {
            return None;
        } else if byte == BACKSLASH {
            if index + 1 >= bytes.len() {
                return None;
            }
            index = index + 2;
        } else {
            index = index + 1;
        }
    }
    None
}

/// Where the first entry of a chain ends: the position of its `:`.
fn attribute_end(src: &[u8]) -> (r: Option<usize>)
    ensures
        entry_end_from(src@, 0, false) == (match r {
            Some(e) => Some(e as int),
            None => None,
        }),
        r matches Some(e) ==> e < src.len() && src@[e as int] == COLON,
{
    proof {
        lemma_entry_end_bounds(src@, 0, false);
    }
    let mut index: usize = 0;
    while index < src.len()
        invariant
            index <= src.len(),
            entry_end_from(src@, 0, false) == entry_end_from(src@, index as int, false),
        decreases src.len() - index,
    {
        let byte = src[index];
        if byte == COLON {
            // preserve `://` in urls, ex: https://www.google.com
            if src.len() - index > 2 && src[index + 1] == SLASH && src[index + 2] == SLASH {
                return None;
            }
            return Some(index);
        }
        if byte == SPACE || byte == TAB || byte == LF || byte == CR {
            return None;
        }
        if byte == QUOTE {
            match quoted_attribute_end(src, index + 1) {
                Some(j) => {
                    index = j;
                },
                None => {
                    return None;
                },
            }
        } else {
            index = index + 1;
        }
    }
    None
}

/// No attribute can be read from the text of an entry: KDL rejects it, and
/// it is not the bare `#` kept for link targets.
pub open spec fn entry_fails(t: Seq<u8>) -> bool {
    kdl_entry(lossy_utf8(t)) is None && t != seq![HASH]
}

/// `r` is the attribute read from the text of an entry: the KDL entry it
/// parses as, or, where KDL rejects it, the bare `#` as a string.
pub open spec fn entry_parses(t: Seq<u8>, r: Option<Attribute>) -> bool {
    match kdl_entry(lossy_utf8(t)) {
        Some(a) => r == Some(a),
        None => if t == seq![HASH] {
            &&& r matches Some(x)
            &&& x.name is None
            &&& x.ty is None
            &&& x.value matches Value::String(v)
            &&& v@ == lossy_utf8(t)
        } else {
            r is None
        },
    }
}

/// KDL reserves `#` for keywords and raw strings; the bare `#` is let through
/// as a link target attribute, as in `[[#: Link Target Header]]`.
fn parse_attribute(src: &[u8]) -> (r: Option<Attribute>)
    ensures
        entry_parses(src@, r),
{
    let text = string_from(src);
    match parse_entry(text.as_str()) {
        Some(a) => Some(a),
        None => {
            if src.len() == 1 && src[0] == HASH {
                assert(src@ =~= seq![HASH]);
                Some(Attribute { name: None, ty: None, value: Value::String(text) })
            } else {
                proof {
                    if src@ == seq![HASH] {
                        assert(src@.len() == 1);
                    }
                }
                None
            }
        },
    }
}

/// How many bytes of `s` its attribute chain takes: each entry up to a `:`,
/// with the `:`, for as long as the entry parses.
pub open spec fn chain_len(s: Seq<u8>) -> nat
    decreases s.len(),
{
    match entry_end_from(s, 0, false) {
        Some(e) => if 0 <= e < s.len() && !entry_fails(s.take(e)) {
            (e + 1) as nat + chain_len(s.skip(e + 1))
        } else {
            0
        },
        None => 0,
    }
}

/// The texts of the entries of the chain `s` starts with.
pub open spec fn chain_entries(s: Seq<u8>) -> Seq<Seq<u8>>
    decreases s.len(),
{
    match entry_end_from(s, 0, false) {
        Some(e) => if 0 <= e < s.len() && !entry_fails(s.take(e)) {
            seq![s.take(e)] + chain_entries(s.skip(e + 1))
        } else {
            Seq::empty()
        },
        None => Seq::empty(),
    }
}

/// An entry pushed as [`Attributes::push_entry`] pushes it.
pub open spec fn pushed(entries: Seq<Attribute>, entry: Attribute) -> Seq<Attribute> {
    match position_of_name(entries, entry) {
        Some(i) => entries.update(i, entry),
        None => entries.push(entry),
    }
}

/// Entries pushed one after another.
pub open spec fn push_all(entries: Seq<Attribute>, parsed: Seq<Attribute>) -> Seq<Attribute>
    decreases parsed.len(),
{
    if parsed.len() == 0 {
        entries
    } else {
        pushed(push_all(entries, parsed.drop_last()), parsed.last())
    }
}

proof fn lemma_push_all_len(parsed: Seq<Attribute>)
    ensures
        parsed.len() == 0 <==> push_all(Seq::empty(), parsed).len() == 0,
    decreases parsed.len(),
{
    if parsed.len() > 0 {
        lemma_push_all_len(parsed.drop_last());
        let before = push_all(Seq::empty(), parsed.drop_last());
        lemma_position_bound(before, parsed.last());
    }
}

proof fn lemma_position_bound(entries: Seq<Attribute>, entry: Attribute)
    ensures
        position_of_name(entries, entry) matches Some(i) ==> 0 <= i < entries.len(),
    decreases entries.len(),
{
    if entries.len() > 0 {
        lemma_position_bound(entries.drop_first(), entry);
    }
}

/// `attrs` holds exactly `entries` as its chain, or is `None` where there are none.
pub open spec fn holds_entries(attrs: Owned, entries: Seq<Attribute>) -> bool {
    if entries.len() == 0 {
        attrs is None
    } else {
        &&& attrs matches Some(a)
        &&& a.entries@ == entries
        &&& a.children@.len() == 0
        &&& a.blocks@.len() == 0
    }
}

/// What [`parse_attributes`] gives for `src`: nothing, and all of `src`
/// back, where `src` opens with a delimiter; otherwise the entries of the
/// chain `src` starts with, pushed in order, and the rest after the chain.
pub open spec fn chain_result(src: Seq<u8>, attrs: Owned, rest: Seq<u8>) -> bool {
    if delimiter_at(src) is Some {
        attrs is None && rest == src
    } else {
        &&& rest == src.skip(chain_len(src) as int)
        &&& exists|parsed: Seq<Attribute>|
            {
                &&& #[trigger] parsed.len() == chain_entries(src).len()
                &&& forall|i: int|
                    0 <= i < parsed.len() ==> entry_parses(chain_entries(src)[i], Some(#[trigger] parsed[i]))
                &&& holds_entries(attrs, push_all(Seq::empty(), parsed))
            }
    }
}

/// Parses the attribute chain at the start of `src` (the text after a marker
/// or delimiter) until the chain is broken or the text ends; returns the
/// entries and the rest of the text.
pub fn parse_attributes(src: &[u8]) -> (r: (Owned, &[u8]))
    ensures
        chain_result(src@, r.0, r.1@),
        r.1@ == chain_rest(src@),
        chain_attrs(src@, r.0),
        r.0 matches Some(a) ==> a.blocks@.len() == 0 && a.children@.len() == 0,
        r.1@.len() <= src@.len(),
        r.1@ == src@.skip(src@.len() - r.1@.len()),
{
    // a chain cannot begin with a delimiter: in **``attr: x`` bold** the
    // verbatim opener is content, not an entry named ``attr
    if Delimiter::at_bytes(src).is_some() {
        assert(src@.skip(0) =~= src@);
        return (None, src);
    }
    let mut attributes = Attributes::default();
    let mut rest = src;
    let ghost mut parsed: Seq<Attribute> = Seq::empty();
    let ghost mut done: Seq<Seq<u8>> = Seq::empty();
    proof {
        assert(src@.skip(0) =~= src@);
    }
    loop
        invariant
            rest@.len() <= src@.len(),
            rest@ == src@.skip(src@.len() - rest@.len()),
            chain_len(src@) == (src@.len() - rest@.len()) + chain_len(rest@),
            chain_entries(src@) == done + chain_entries(rest@),
            parsed.len() == done.len(),
            forall|i: int| 0 <= i < parsed.len() ==> entry_parses(done[i], Some(#[trigger] parsed[i])),
            attributes.entries@ == push_all(Seq::empty(), parsed),
            attributes.children@.len() == 0,
            attributes.blocks@.len() == 0,
        ensures
            chain_len(rest@) == 0,
            chain_entries(rest@) == Seq::<Seq<u8>>::empty(),
        decreases rest@.len(),
    {
        let end = match attribute_end(rest) {
            Some(end) => end,
            None => {
                break;
            },
        };
        let attribute = match parse_attribute(&rest[0..end]) {
            Some(a) => a,
            None => {
                proof {
                    assert(rest@.subrange(0, end as int) =~= rest@.take(end as int));
                }
                break;
            },
        };
        proof {
            assert(rest@.subrange(0, end as int) =~= rest@.take(end as int));
            let next = rest@.skip(end + 1);
            assert(chain_entries(rest@) == seq![rest@.take(end as int)] + chain_entries(next));
            assert(src@.skip(src@.len() - next.len()) =~= next);
            assert(done.push(rest@.take(end as int)) + chain_entries(next) =~= done + (seq![
                rest@.take(end as int),
            ] + chain_entries(next)));
        }
        let ghost prev = parsed;
        proof {
            parsed = parsed.push(attribute);
            done = done.push(rest@.take(end as int));
            assert(parsed.drop_last() =~= prev);
        }
        attributes.push_entry(attribute);
        rest = &rest[end + 1..rest.len()];
    }
    proof {
        assert(done + Seq::<Seq<u8>>::empty() =~= done);
        lemma_push_all_len(parsed);
        assert(parsed.len() == chain_entries(src@).len());
    }
    assert(attributes.blocks@.len() == 0);
    if attributes.entries.len() == 0 {
        (None, rest)
    } else {
        (Some(Box::new(attributes)), rest)
    }
}

/// What is left of `src` after the chain at its start.
pub open spec fn chain_rest(src: Seq<u8>) -> Seq<u8> {
    src.skip(chain_taken(src))
}

/// `attrs` holds the entries of the chain at the start of `src`.
pub open spec fn chain_attrs(src: Seq<u8>, attrs: Owned) -> bool {
    chain_result(src, attrs, chain_rest(src))
}

/// A chain gives no attributes exactly where `src` opens with a delimiter
/// or holds no entries.
pub proof fn lemma_chain_none(src: Seq<u8>, attrs: Owned)
    requires
        chain_attrs(src, attrs),
    ensures
        attrs is None <==> (delimiter_at(src) is Some || chain_entries(src).len() == 0),
{
    if delimiter_at(src) is None {
        let parsed = choose|parsed: Seq<Attribute>|
            {
                &&& #[trigger] parsed.len() == chain_entries(src).len()
                &&& forall|i: int|
                    0 <= i < parsed.len() ==> entry_parses(chain_entries(src)[i], Some(#[trigger] parsed[i]))
                &&& holds_entries(attrs, push_all(Seq::empty(), parsed))
            };
        lemma_push_all_len(parsed);
    }
}

/// How many bytes of `src` the chain after a delimiter takes: it stops at
/// the delimiter's attribute boundary.
pub open spec fn delimiter_chain_taken(src: Seq<u8>, delimiter: Delimiter) -> int {
    match boundary_in_chain(src, delimiter) {
        None => chain_taken(src),
        Some(p) => chain_taken(src.take(p)),
    }
}

/// `attrs` holds the entries of the chain after a delimiter.
pub open spec fn delimiter_chain_attrs(src: Seq<u8>, delimiter: Delimiter, attrs: Owned) -> bool {
    match boundary_in_chain(src, delimiter) {
        None => chain_attrs(src, attrs),
        Some(p) => chain_attrs(src.take(p), attrs),
    }
}

/// Where the two bytes `pair` first stand in `s`, from `i` on.
pub open spec fn first_pair(s: Seq<u8>, pair: Seq<u8>, i: int) -> Option<int>
    decreases s.len() - i,
{
    if i < 0 || i + 1 >= s.len() {
        None
    } else if s[i] == pair[0] && s[i + 1] == pair[1] {
        Some(i)
    } else {
        first_pair(s, pair, i + 1)
    }
}

fn find_pair(s: &[u8], pair: [u8; 2]) -> (r: Option<usize>)
    ensures
        first_pair(s@, pair@, 0) == (match r {
            Some(p) => Some(p as int),
            None => None,
        }),
        r matches Some(p) ==> p + 1 < s.len(),
{
    let mut i: usize = 0;
    while s.len() > 1 && i < s.len() - 1
        invariant
            first_pair(s@, pair@, 0) == first_pair(s@, pair@, i as int),
        decreases s.len() - i,
    {
        if s[i] == pair[0] && s[i + 1] == pair[1] {
            return Some(i);
        }
        i = i + 1;
    }
    None
}

/// How many bytes of `src` the chain at its start takes.
pub open spec fn chain_taken(src: Seq<u8>) -> int {
    if delimiter_at(src) is Some {
        0
    } else {
        chain_len(src) as int
    }
}

/// Where, inside the chain after a delimiter, the delimiter's attribute
/// boundary first stands: the chain must stop there.
pub open spec fn boundary_in_chain(src: Seq<u8>, delimiter: Delimiter) -> Option<int> {
    match delimiter.attribute_boundary_spec() {
        Some(b) => first_pair(src.take(chain_taken(src)), b, 0),
        None => None,
    }
}

proof fn lemma_chain_taken(src: Seq<u8>)
    ensures
        0 <= chain_taken(src) <= src.len(),
    decreases src.len(),
{
    if delimiter_at(src) is None {
        match entry_end_from(src, 0, false) {
            Some(e) => {
                if 0 <= e < src.len() && !entry_fails(src.take(e)) {
                    lemma_chain_len(src.skip(e + 1));
                }
            },
            None => {},
        }
    }
}

proof fn lemma_chain_len(src: Seq<u8>)
    ensures
        chain_len(src) <= src.len(),
    decreases src.len(),
{
    match entry_end_from(src, 0, false) {
        Some(e) => {
            if 0 <= e < src.len() && !entry_fails(src.take(e)) {
                lemma_chain_len(src.skip(e + 1));
            }
        },
        None => {},
    }
}

/// The attribute chain after a delimiter, which stops at the delimiter's
/// attribute boundary: a closing delimiter, or a table row's first cell,
/// inside what would otherwise be the chain ends it.
pub fn parse_delimiter_attributes(src: &[u8], delimiter: Delimiter) -> (r: (Owned, &[u8]))
    ensures
        r.0 matches Some(a) ==> a.blocks@.len() == 0 && a.children@.len() == 0,
        r.1@.len() <= src@.len(),
        r.1@ == src@.skip(src@.len() - r.1@.len()),
        match boundary_in_chain(src@, delimiter) {
            None => chain_result(src@, r.0, r.1@),
            Some(p) => 0 <= p <= src@.len() && chain_result(
                src@.take(p),
                r.0,
                src@.take(p).skip(src@.len() - r.1@.len()),
            ),
        },
        0 <= delimiter_chain_taken(src@, delimiter) <= src@.len(),
        r.1@ == src@.skip(delimiter_chain_taken(src@, delimiter)),
        delimiter_chain_attrs(src@, delimiter, r.0),
{
    let (attributes, rest) = parse_attributes(src);
    proof {
        lemma_chain_taken(src@);
    }
    if let Some(boundary) = delimiter.attribute_boundary() {
        let consumed = src.len() - rest.len();
        assert(consumed == chain_taken(src@));
        if let Some(position) = find_pair(&src[0..consumed], boundary) {
            assert(src@.subrange(0, consumed as int) =~= src@.take(chain_taken(src@)));
            let head = &src[0..position];
            assert(head@ =~= src@.take(position as int));
            let (attributes, inner_rest) = parse_attributes(head);
            assert(attributes matches Some(a) ==> a.blocks@.len() == 0 && a.children@.len() == 0);
            let start = position - inner_rest.len();
            let r = &src[start..src.len()];
            proof {
                assert(r@ =~= src@.skip(src@.len() - r@.len()));
                assert(inner_rest@ =~= src@.take(position as int).skip(src@.len() - r@.len()));
                lemma_chain_taken(head@);
                assert(inner_rest@.len() == position - chain_taken(head@));
            }
            return (attributes, r);
        }
    }
    (attributes, rest)
}

/// The message for a KDL failure: the first diagnostic's message, with the
/// line of the block it points at (counted in the block's own bytes), and its
/// help where it has some; the error's own text where it has no diagnostic.
pub open spec fn describe_spec(text: Seq<u8>, f: KdlFailure) -> Seq<u8> {
    match f.diagnostic {
        None => encode_utf8(f.display@),
        Some(d) => {
            let taken = if d.offset < text.len() {
                d.offset as int
            } else {
                text.len() as int
            };
            let line = count_newlines(text.take(taken)) + 1;
            let message = match d.message {
                Some(m) => encode_utf8(m@),
                None => encode_utf8(f.display@),
            };
            let located = message + encode_utf8(", on line "@) + decimal(line) + encode_utf8(
                " of the block"@,
            );
            match d.help {
                Some(h) => located + encode_utf8(" ("@) + encode_utf8(h@) + encode_utf8(")"@),
                None => located,
            }
        },
    }
}

/// The number of `\n` bytes among the first `limit` bytes of `text`.
fn newlines_before(text: &[u8], limit: usize) -> (n: usize)
    ensures
        n == count_newlines(text@.take(if limit < text.len() { limit as int } else { text.len() as int })),
{
    let end = if limit < text.len() {
        limit
    } else {
        text.len()
    };
    let mut n: usize = 0;
    let mut i: usize = 0;
    while i < end
        invariant
            i <= end <= text.len(),
            n == count_newlines(text@.take(i as int)),
            n <= i,
        decreases end - i,
    {
        assert(text@.take(i + 1).drop_last() =~= text@.take(i as int));
        if text[i] == LF {
            n = n + 1;
        }
        i = i + 1;
    }
    n
}

/// `KdlError`'s own `Display` says only that parsing failed; what a reader
/// needs is in its diagnostics. The line is counted within the block, in
/// UTF-8 bytes, because diagnostic offsets are bytes.
fn describe(text: &[u8], failure: &KdlFailure) -> (message: String)
    requires
        vstd::utf8::valid_utf8(text@),
    ensures
        encode_utf8(message@) == describe_spec(text@, *failure),
{
    match &failure.diagnostic {
        None => {
            let b = str_bytes(failure.display.as_str());
            string_from(b)
        },
        Some(d) => {
            let line = newlines_before(text, d.offset) as u128 + 1;
            let mut bytes: Vec<u8> = Vec::new();
            match &d.message {
                Some(m) => push_bytes(&mut bytes, str_bytes(m.as_str())),
                None => push_bytes(&mut bytes, str_bytes(failure.display.as_str())),
            }
            let ghost b0 = bytes@;
            let on_line = str_bytes(", on line ");
            push_bytes(&mut bytes, on_line);
            proof {
                lemma_valid_concat(b0, on_line@);
            }
            let ghost b1 = bytes@;
            let digits = decimal_bytes(line);
            push_bytes(&mut bytes, digits.as_slice());
            proof {
                lemma_valid_concat(b1, digits@);
            }
            let ghost b2 = bytes@;
            let of_block = str_bytes(" of the block");
            push_bytes(&mut bytes, of_block);
            proof {
                lemma_valid_concat(b2, of_block@);
            }
            if let Some(h) = &d.help {
                let ghost b3 = bytes@;
                let open = str_bytes(" (");
                push_bytes(&mut bytes, open);
                let ghost b4 = bytes@;
                let help = str_bytes(h.as_str());
                push_bytes(&mut bytes, help);
                let ghost b5 = bytes@;
                let close = str_bytes(")");
                push_bytes(&mut bytes, close);
                proof {
                    lemma_valid_concat(b3, open@);
                    lemma_valid_concat(b4, help@);
                    lemma_valid_concat(b5, close@);
                }
            }
            string_from(bytes.as_slice())
        },
    }
}

/// The body of an ``attr: block as attributes, or the KDL error saying why
/// it is not one. A block that fails to parse stays an ordinary verbatim
/// block, which renders its body as a code sample; the error is returned
/// rather than dropped so that a host can say what was wrong and where.
pub fn parse_attribute_block(text: &str) -> (r: Result<Vec<Attribute>, String>)
    ensures
        r matches Ok(attributes) ==> all_blockless(attributes@),
        match kdl_document(text@) {
            Ok(attributes) => r == Ok::<Vec<Attribute>, String>(attributes),
            Err(failure) => r matches Err(message) && encode_utf8(message@) == describe_spec(
                encode_utf8(text@),
                failure,
            ),
        },
{
    match parse_document(text) {
        Ok(attributes) => Ok(attributes),
        Err(failure) => Err(describe(str_bytes(text), &failure)),
    }
}

/// A byte that can end an entry or open a quoted string in a chain.
pub open spec fn chain_stop(b: u8) -> bool {
    b == COLON || b == 32u8 || b == 9u8 || b == LF || b == CR || b == QUOTE
}

pub proof fn lemma_no_entry_before_url(src: Seq<u8>, i: int, k: int)
    requires
        0 <= k <= i,
        i + 2 < src.len(),
        src[i] == COLON,
        src[i + 1] == SLASH,
        src[i + 2] == SLASH,
        forall|j: int| 0 <= j < i ==> !chain_stop(#[trigger] src[j]),
    ensures
        entry_end_from(src, k, false) is None,
        k == 0 ==> chain_len(src) == 0 && chain_entries(src).len() == 0,
    decreases i - k,
{
    if k < i {
        lemma_no_entry_before_url(src, i, k + 1);
    }
}

/// A `:` that opens `://`, as in a URL, ends no entry: where the first byte
/// of a text that can end an entry is such a `:`, the text opens no
/// attribute chain, no attribute is read from it, and all of it is left, so
/// a link target keeps the whole URL.
pub proof fn law_url_opens_no_chain(src: Seq<u8>, i: int, attrs: Owned, rest: Seq<u8>)
    requires
        0 <= i,
        i + 2 < src.len(),
        src[i] == COLON,
        src[i + 1] == SLASH,
        src[i + 2] == SLASH,
        forall|j: int| 0 <= j < i ==> !chain_stop(#[trigger] src[j]),
        chain_result(src, attrs, rest),
    ensures
        chain_entries(src).len() == 0,
        chain_rest(src) == src,
        attrs is None,
        rest == src,
{
    lemma_no_entry_before_url(src, i, 0);
    assert(src.skip(0) =~= src);
    if delimiter_at(src) is None {
        let parsed = choose|parsed: Seq<Attribute>|
            {
                &&& #[trigger] parsed.len() == chain_entries(src).len()
                &&& forall|k: int|
                    0 <= k < parsed.len() ==> entry_parses(chain_entries(src)[k], Some(#[trigger] parsed[k]))
                &&& holds_entries(attrs, push_all(Seq::empty(), parsed))
            };
        lemma_push_all_len(parsed);
    }
}

} // verus!
