//! The structural markers, each written with one byte, and the scope a
//! marker applies to: its own line or the block it opens.

use vstd::prelude::*;

use crate::text::{DASH, DOT, EQUALS, GT, HASH};

verus! {

#[derive(Debug, Clone, Copy, PartialEq, Eq, Structural)]
pub enum StructuralMarker {
    Heading,
    UnorderedList,
    OrderedList,
    Blockquote,
    ThematicBreak,
}

/// Whether a marker applies to its own line or to the block it opens.
#[derive(Debug, Clone, Copy, PartialEq, Eq, Structural)]
pub enum StructuralMarkerScope {
    Inline,
    Block,
}

/// The structural marker a byte opens, if any.
pub open spec fn structural_of_byte(byte: u8) -> Option<StructuralMarker> {
    if byte == HASH {
        Some(StructuralMarker::Heading)
    } else if byte == DASH {
        Some(StructuralMarker::UnorderedList)
    } else if byte == DOT {
        Some(StructuralMarker::OrderedList)
    } else if byte == GT {
        Some(StructuralMarker::Blockquote)
    } else if byte == EQUALS {
        Some(StructuralMarker::ThematicBreak)
    } else {
        None
    }
}

impl StructuralMarker {
    pub open spec fn byte_spec(self) -> u8 {
        match self {
            StructuralMarker::Heading => HASH,
            StructuralMarker::UnorderedList => DASH,
            StructuralMarker::OrderedList => DOT,
            StructuralMarker::Blockquote => GT,
            StructuralMarker::ThematicBreak => EQUALS,
        }
    }

    /// The byte this marker is written with.
    pub fn byte(self) -> (b: u8)
        ensures
            b == self.byte_spec(),
    {
        match self {
            StructuralMarker::Heading => HASH,
            StructuralMarker::UnorderedList => DASH,
            StructuralMarker::OrderedList => DOT,
            StructuralMarker::Blockquote => GT,
            StructuralMarker::ThematicBreak => EQUALS,
        }
    }

    pub fn from_byte(byte: u8) -> (marker: Option<Self>)
        ensures
            marker == structural_of_byte(byte),
    {
        if byte == HASH {
            Some(StructuralMarker::Heading)
        } else if byte == DASH {
            Some(StructuralMarker::UnorderedList)
        } else if byte == DOT {
            Some(StructuralMarker::OrderedList)
        } else if byte == GT {
            Some(StructuralMarker::Blockquote)
        } else if byte == EQUALS {
            Some(StructuralMarker::ThematicBreak)
        } else {
            None
        }
    }
}

/// `from_byte` undoes `byte`, and recognises no other byte as that marker.
pub proof fn law_structural_byte_round_trip(marker: StructuralMarker, byte: u8)
    ensures
        structural_of_byte(marker.byte_spec()) == Some(marker),
        structural_of_byte(byte) == Some(marker) ==> byte == marker.byte_spec(),
{
}

} // verus!
