use vstd::prelude::*;

use crate::text::{
    slice_starts_with, starts_with_pair, str_bytes, BACKTICK, DASH, HASH, LBRACE, LBRACKET, LPAREN,
    PIPE, RBRACE, RBRACKET, RPAREN, STAR, TILDE, UNDERSCORE,
};

verus! {

/// The two-byte delimiters of the markup.
#[derive(Debug, Clone, Copy, PartialEq, Eq, Structural)]
pub enum Delimiter {
    Strong,
    Italic,
    Verbatim,
    Strikethrough,
    TableHeader,
    TableRow,
    TableCell,
    Footnote,
    Link,
    LinkName,
}

/// The delimiter a pair of bytes spells, if any. Footnotes, links and link
/// names are spelled by both their opening and their closing pair.
pub open spec fn delimiter_of_pair(a: u8, b: u8) -> Option<Delimiter> {
    if a == STAR && b == STAR {
        Some(Delimiter::Strong)
    } else if a == UNDERSCORE && b == UNDERSCORE {
        Some(Delimiter::Italic)
    } else if a == BACKTICK && b == BACKTICK {
        Some(Delimiter::Verbatim)
    } else if a == TILDE && b == TILDE {
        Some(Delimiter::Strikethrough)
    } else if a == HASH && b == PIPE {
        Some(Delimiter::TableHeader)
    } else if a == DASH && b == PIPE {
        Some(Delimiter::TableRow)
    } else if a == PIPE && b == PIPE {
        Some(Delimiter::TableCell)
    } else if (a == LBRACE && b == LBRACE) || (a == RBRACE && b == RBRACE) {
        Some(Delimiter::Footnote)
    } else if (a == LBRACKET && b == LBRACKET) || (a == RBRACKET && b == RBRACKET) {
        Some(Delimiter::Link)
    } else if (a == LPAREN && b == LPAREN) || (a == RPAREN && b == RPAREN) {
        Some(Delimiter::LinkName)
    } else {
        None
    }
}

/// The delimiter at the start of `s`, if it begins with one.
pub open spec fn delimiter_at(s: Seq<u8>) -> Option<Delimiter> {
    if s.len() >= 2 {
        delimiter_of_pair(s[0], s[1])
    } else {
        None
    }
}

/// The set of delimiters enclosing a position, as a bitset: at most ten
/// variants, so a `Copy` mask replaces a list that would be rebuilt at every
/// nesting level.
#[derive(Debug, Clone, Copy)]
pub struct Delimiters(pub u16);

impl Delimiters {
    /// The set holds `delimiter`.
    pub open spec fn has(self, delimiter: Delimiter) -> bool {
        self.0 & delimiter.mask_spec() != 0
    }

    /// The empty set.
    pub fn none() -> (set: Delimiters)
        ensures
            forall|d: Delimiter| !set.has(d),
            set == Delimiters(0u16),
    {
        proof {
            assert forall|d: Delimiter| !(Delimiters(0u16)).has(d) by {
                let m = d.mask_spec();
                assert(0u16 & m == 0u16) by (bit_vector);
            }
        }
        Delimiters(0)
    }

    /// The set with `delimiter` added.
    pub open spec fn with_spec(self, delimiter: Delimiter) -> Delimiters {
        Delimiters(self.0 | delimiter.mask_spec())
    }

    /// The set with `delimiter` added.
    pub fn with(self, delimiter: Delimiter) -> (set: Delimiters)
        ensures
            forall|d: Delimiter| set.has(d) <==> (self.has(d) || d == delimiter),
            set == self.with_spec(delimiter),
    {
        let set = Delimiters(self.0 | delimiter.mask());
        proof {
            assert forall|d: Delimiter| set.has(d) <==> (self.has(d) || d == delimiter) by {
                lemma_masks_distinct(d, delimiter);
                lemma_masks_distinct(delimiter, d);
                let a = self.0;
                let m = delimiter.mask_spec();
                let n = d.mask_spec();
                assert((a | m) & n != 0 <==> (a & n != 0 || m & n != 0)) by (bit_vector);
                if d == delimiter {
                    assert(m & m != 0) by (bit_vector)
                        requires
                            m != 0u16,
                    ;
                }
            }
        }
        set
    }

    pub fn contains(self, delimiter: Delimiter) -> (r: bool)
        ensures
            r == self.has(delimiter),
    {
        self.0 & delimiter.mask() != 0
    }
}

impl Default for Delimiters {
    fn default() -> (set: Delimiters)
        ensures
            forall|d: Delimiter| !set.has(d),
            set == Delimiters(0u16),
    {
        Delimiters::none()
    }
}

/// Distinct delimiters have disjoint, non-zero masks.
proof fn lemma_masks_distinct(a: Delimiter, b: Delimiter)
    ensures
        a.mask_spec() != 0,
        a != b ==> a.mask_spec() & b.mask_spec() == 0,
{
    let i = a.index_spec();
    let j = b.index_spec();
    assert(i < 10 && j < 10);
    assert((1u16 << i) != 0) by (bit_vector)
        requires
            i < 10u16,
    ;
    if a != b {
        assert(i != j);
        assert((1u16 << i) & (1u16 << j) == 0) by (bit_vector)
            requires
                i < 10u16,
                j < 10u16,
                i != j,
        ;
    }
}

impl Delimiter {
    pub open spec fn index_spec(self) -> u16 {
        match self {
            Delimiter::Strong => 0,
            Delimiter::Italic => 1,
            Delimiter::Verbatim => 2,
            Delimiter::Strikethrough => 3,
            Delimiter::TableHeader => 4,
            Delimiter::TableRow => 5,
            Delimiter::TableCell => 6,
            Delimiter::Footnote => 7,
            Delimiter::Link => 8,
            Delimiter::LinkName => 9,
        }
    }

    pub open spec fn mask_spec(self) -> u16 {
        1u16 << self.index_spec()
    }

    fn mask(self) -> (m: u16)
        ensures
            m == self.mask_spec(),
    {
        let i: u16 = match self {
            Delimiter::Strong => 0,
            Delimiter::Italic => 1,
            Delimiter::Verbatim => 2,
            Delimiter::Strikethrough => 3,
            Delimiter::TableHeader => 4,
            Delimiter::TableRow => 5,
            Delimiter::TableCell => 6,
            Delimiter::Footnote => 7,
            Delimiter::Link => 8,
            Delimiter::LinkName => 9,
        };
        1u16 << i
    }

    /// The pair that opens this delimiter.
    pub open spec fn opening_spec(self) -> Seq<u8> {
        match self {
            Delimiter::Strong => seq![STAR, STAR],
            Delimiter::Italic => seq![UNDERSCORE, UNDERSCORE],
            Delimiter::Verbatim => seq![BACKTICK, BACKTICK],
            Delimiter::Strikethrough => seq![TILDE, TILDE],
            Delimiter::TableHeader => seq![HASH, PIPE],
            Delimiter::TableRow => seq![DASH, PIPE],
            Delimiter::TableCell => seq![PIPE, PIPE],
            Delimiter::Link => seq![LBRACKET, LBRACKET],
            Delimiter::LinkName => seq![LPAREN, LPAREN],
            Delimiter::Footnote => seq![LBRACE, LBRACE],
        }
    }

    /// The pair that closes this delimiter; table delimiters have none.
    pub open spec fn closing_spec(self) -> Option<Seq<u8>> {
        match self {
            Delimiter::TableHeader | Delimiter::TableRow | Delimiter::TableCell => None,
            Delimiter::Link => Some(seq![RBRACKET, RBRACKET]),
            Delimiter::LinkName => Some(seq![RPAREN, RPAREN]),
            Delimiter::Footnote => Some(seq![RBRACE, RBRACE]),
            _ => Some(self.opening_spec()),
        }
    }

    /// Where an attribute chain after this delimiter must stop.
    pub open spec fn attribute_boundary_spec(self) -> Option<Seq<u8>> {
        match self {
            Delimiter::TableHeader | Delimiter::TableRow => Some(Delimiter::TableCell.opening_spec()),
            _ => self.closing_spec(),
        }
    }

    pub fn from_bytes(pair: [u8; 2]) -> (d: Option<Self>)
        ensures
            d == delimiter_of_pair(pair@[0], pair@[1]),
    {
        Self::from_pair(pair[0], pair[1])
    }

    pub(crate) fn from_pair(a: u8, b: u8) -> (d: Option<Self>)
        ensures
            d == delimiter_of_pair(a, b),
    {
        if a == STAR && b == STAR {
            Some(Delimiter::Strong)
        } else if a == UNDERSCORE && b == UNDERSCORE {
            Some(Delimiter::Italic)
        } else if a == BACKTICK && b == BACKTICK {
            Some(Delimiter::Verbatim)
        } else if a == TILDE && b == TILDE {
            Some(Delimiter::Strikethrough)
        } else if a == HASH && b == PIPE {
            Some(Delimiter::TableHeader)
        } else if a == DASH && b == PIPE {
            Some(Delimiter::TableRow)
        } else if a == PIPE && b == PIPE {
            Some(Delimiter::TableCell)
        } else if (a == LBRACE && b == LBRACE) || (a == RBRACE && b == RBRACE) {
            Some(Delimiter::Footnote)
        } else if (a == LBRACKET && b == LBRACKET) || (a == RBRACKET && b == RBRACKET) {
            Some(Delimiter::Link)
        } else if (a == LPAREN && b == LPAREN) || (a == RPAREN && b == RPAREN) {
            Some(Delimiter::LinkName)
        } else {
            None
        }
    }

    /// The delimiter `text` starts with, if any.
    pub fn at(text: &str) -> (d: Option<Self>)
        ensures
            d == delimiter_at(vstd::utf8::encode_utf8(text@)),
    {
        Self::at_bytes(str_bytes(text))
    }

    pub(crate) fn at_bytes(text: &[u8]) -> (d: Option<Self>)
        ensures
            d == delimiter_at(text@),
    {
        if text.len() >= 2 {
            Self::from_pair(text[0], text[1])
        } else {
            None
        }
    }

    pub fn opens(self, text: &str) -> (r: bool)
        ensures
            r == starts_with_pair(vstd::utf8::encode_utf8(text@), self.opening_spec()),
    {
        self.opens_bytes(str_bytes(text))
    }

    pub(crate) fn opens_bytes(self, text: &[u8]) -> (r: bool)
        ensures
            r == starts_with_pair(text@, self.opening_spec()),
    {
        slice_starts_with(text, self.opening())
    }

    pub fn closes(self, text: &str) -> (r: bool)
        ensures
            r == (self.closing_spec() is Some && starts_with_pair(
                vstd::utf8::encode_utf8(text@),
                self.closing_spec().unwrap(),
            )),
    {
        self.closes_bytes(str_bytes(text))
    }

    pub(crate) fn closes_bytes(self, text: &[u8]) -> (r: bool)
        ensures
            r == (self.closing_spec() is Some && starts_with_pair(text@, self.closing_spec().unwrap())),
    {
        match self.closing() {
            Some(closing) => slice_starts_with(text, closing),
            None => false,
        }
    }

    pub fn opening(self) -> (pair: [u8; 2])
        ensures
            pair@ == self.opening_spec(),
    {
        let pair = match self {
            Delimiter::Strong => [STAR, STAR],
            Delimiter::Italic => [UNDERSCORE, UNDERSCORE],
            Delimiter::Verbatim => [BACKTICK, BACKTICK],
            Delimiter::Strikethrough => [TILDE, TILDE],
            Delimiter::TableHeader => [HASH, PIPE],
            Delimiter::TableRow => [DASH, PIPE],
            Delimiter::TableCell => [PIPE, PIPE],
            Delimiter::Link => [LBRACKET, LBRACKET],
            Delimiter::LinkName => [LPAREN, LPAREN],
            Delimiter::Footnote => [LBRACE, LBRACE],
        };
        assert(pair@ =~= self.opening_spec());
        pair
    }

    pub fn closing(self) -> (pair: Option<[u8; 2]>)
        ensures
            pair is Some <==> self.closing_spec() is Some,
            pair is Some ==> pair.unwrap()@ == self.closing_spec().unwrap(),
    {
        match self {
            Delimiter::TableHeader | Delimiter::TableRow | Delimiter::TableCell => None,
            Delimiter::Link => {
                let pair = [RBRACKET, RBRACKET];
                assert(pair@ =~= seq![RBRACKET, RBRACKET]);
                Some(pair)
            },
            Delimiter::LinkName => {
                let pair = [RPAREN, RPAREN];
                assert(pair@ =~= seq![RPAREN, RPAREN]);
                Some(pair)
            },
            Delimiter::Footnote => {
                let pair = [RBRACE, RBRACE];
                assert(pair@ =~= seq![RBRACE, RBRACE]);
                Some(pair)
            },
            _ => Some(self.opening()),
        }
    }

    /// A symmetric delimiter closes with the pair it opens with.
    pub fn is_symmetric(self) -> (r: bool)
        ensures
            r == (self.closing_spec() == Some(self.opening_spec())),
    {
        match self.closing() {
            Some(closing) => {
                let opening = self.opening();
                let r = closing[0] == opening[0] && closing[1] == opening[1];
                proof {
                    if r {
                        assert(closing@ =~= opening@);
                    }
                }
                r
            },
            None => false,
        }
    }

    /// The pair where an attribute chain after this delimiter must stop: a
    /// table row's chain stops at its first cell, any other at the closer.
    pub fn attribute_boundary(self) -> (pair: Option<[u8; 2]>)
        ensures
            pair is Some <==> self.attribute_boundary_spec() is Some,
            pair is Some ==> pair.unwrap()@ == self.attribute_boundary_spec().unwrap(),
    {
        match self {
            Delimiter::TableHeader | Delimiter::TableRow => Some(Delimiter::TableCell.opening()),
            _ => self.closing(),
        }
    }
}

/// Every delimiter is spelled by its own opening pair, and by its closing
/// pair where it has one.
pub proof fn law_pairs_spell_their_delimiter(d: Delimiter)
    ensures
        delimiter_of_pair(d.opening_spec()[0], d.opening_spec()[1]) == Some(d),
        d.closing_spec() is Some ==> delimiter_of_pair(
            d.closing_spec().unwrap()[0],
            d.closing_spec().unwrap()[1],
        ) == Some(d),
{
}

/// Exactly the table delimiters have no closing pair; exactly links, link
/// names and footnotes close with a pair other than their opening one.
pub proof fn law_closing_pairs(d: Delimiter)
    ensures
        (d.closing_spec() is None) <==> (d == Delimiter::TableHeader || d == Delimiter::TableRow
            || d == Delimiter::TableCell),
        (d.closing_spec() is Some && d.closing_spec() != Some(d.opening_spec())) <==> (d
            == Delimiter::Link || d == Delimiter::LinkName || d == Delimiter::Footnote),
{
    if d == Delimiter::Link {
        assert(d.closing_spec().unwrap()[0] != d.opening_spec()[0]);
    }
    if d == Delimiter::LinkName {
        assert(d.closing_spec().unwrap()[0] != d.opening_spec()[0]);
    }
    if d == Delimiter::Footnote {
        assert(d.closing_spec().unwrap()[0] != d.opening_spec()[0]);
    }
}

} // verus!
