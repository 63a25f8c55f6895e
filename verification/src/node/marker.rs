use vstd::prelude::*;

use crate::text::{DASH, DOT, EQUALS, GT, HASH};

verus! {

/// A structural marker: the run of marker bytes that opens a line, and how
/// many there are.
#[derive(Debug, Clone, Copy, PartialEq, Eq, Structural)]
pub struct Marker {
    pub depth: usize,
    pub kind: MarkerKind,
}

#[derive(Debug, Clone, Copy, PartialEq, Eq, Structural)]
pub enum MarkerKind {
    Heading,
    UnorderedList,
    OrderedList,
    Blockquote,
    Free,
}

/// The marker a byte opens, if any.
pub open spec fn marker_of_byte(byte: u8) -> Option<MarkerKind> {
    if byte == HASH {
        Some(MarkerKind::Heading)
    } else if byte == DASH {
        Some(MarkerKind::UnorderedList)
    } else if byte == DOT {
        Some(MarkerKind::OrderedList)
    } else if byte == GT {
        Some(MarkerKind::Blockquote)
    } else if byte == EQUALS {
        Some(MarkerKind::Free)
    } else {
        None
    }
}

impl MarkerKind {
    /// The byte this marker is written with.
    pub open spec fn byte_spec(self) -> u8 {
        match self {
            MarkerKind::Heading => HASH,
            MarkerKind::UnorderedList => DASH,
            MarkerKind::OrderedList => DOT,
            MarkerKind::Blockquote => GT,
            MarkerKind::Free => EQUALS,
        }
    }

    pub fn from_byte(byte: u8) -> (kind: Option<Self>)
        ensures
            kind == marker_of_byte(byte),
    {
        if byte == HASH {
            Some(MarkerKind::Heading)
        } else if byte == DASH {
            Some(MarkerKind::UnorderedList)
        } else if byte == DOT {
            Some(MarkerKind::OrderedList)
        } else if byte == GT {
            Some(MarkerKind::Blockquote)
        } else if byte == EQUALS {
            Some(MarkerKind::Free)
        } else {
            None
        }
    }
}

/// A marker kind is recognised exactly from its own byte.
pub proof fn law_marker_byte_round_trip(kind: MarkerKind, byte: u8)
    ensures
        marker_of_byte(kind.byte_spec()) == Some(kind),
        marker_of_byte(byte) == Some(kind) ==> byte == kind.byte_spec(),
{
}

} // verus!
