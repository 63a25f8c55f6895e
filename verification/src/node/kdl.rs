//! The calls into the `kdl` crate. KDL parsing is a function of the text it
//! is given alone, so each call's result is named rather than described.

use vstd::prelude::*;

use crate::node::attribute::{all_blockless, Attribute, Attributes, Value};

verus! {

#[verifier::external_type_specification]
#[verifier::external_body]
pub struct ExKdlNode(kdl::KdlNode);

#[verifier::external_type_specification]
#[verifier::external_body]
pub struct ExKdlEntry(kdl::KdlEntry);

/// What a failed parse of a KDL document reports.
#[derive(Debug, PartialEq)]
pub struct KdlFailure {
    /// The first of the error's diagnostics, if it has any.
    pub diagnostic: Option<KdlDiagnosticInfo>,
    /// The error's own `Display` text.
    pub display: String,
}

/// One KDL diagnostic: where the parser stopped, as a UTF-8 byte offset into
/// the text, what it says, and the help it offers.
#[derive(Debug, PartialEq)]
pub struct KdlDiagnosticInfo {
    pub offset: usize,
    pub message: Option<String>,
    pub help: Option<String>,
}

/// The attribute `KdlEntry::parse` reads from a text, or `None` where it fails.
pub uninterp spec fn kdl_entry(text: Seq<char>) -> Option<Attribute>;

/// The nodes `KdlDocument::parse` reads from a text, each as an attribute
/// whose value holds the node's entries and children, or what the failure
/// reports.
pub uninterp spec fn kdl_document(text: Seq<char>) -> Result<Vec<Attribute>, KdlFailure>;

/// `KdlEntry::parse`: one KDL entry (an argument or a `name=value` property)
/// read from `text` and carried over into an [`Attribute`] as it is; `None`
/// where the text is not one entry. The contract says that the result is the
/// named function of the text, and that an entry's value is a scalar, never a
/// node: the conversion gives each `KdlValue` variant a scalar [`Value`].
#[verifier::external_body]
pub(crate) fn parse_entry(text: &str) -> (entry: Option<Attribute>)
    ensures
        entry == kdl_entry(text@),
        entry matches Some(a) ==> !(a.value is Node),
{
    match kdl::KdlEntry::parse(text) {
        Ok(entry) => Some(attribute_from_entry(&entry)),
        Err(_) => None,
    }
}

/// `KdlDocument::parse`: the document's nodes carried over into attributes,
/// or its error's first diagnostic and message. The contract says that the
/// result is the named function of the text, and that no attributes nested
/// in it record a block: the conversion gives every node it carries over an
/// empty `blocks`, since a KDL node has no ``attr: block of its own.
#[verifier::external_body]
pub(crate) fn parse_document(text: &str) -> (document: Result<Vec<Attribute>, KdlFailure>)
    ensures
        document == kdl_document(text@),
        document matches Ok(attributes) ==> all_blockless(attributes@),
{
    match kdl::KdlDocument::parse(text) {
        Ok(document) => Ok(document.nodes().iter().map(attribute_from_node).collect()),
        Err(error) => Err(KdlFailure {
            diagnostic: error.diagnostics.first().map(|d| KdlDiagnosticInfo {
                offset: d.span.offset(),
                message: d.message.clone(),
                help: d.help.clone(),
            }),
            display: error.to_string(),
        }),
    }
}

/// Carries a KDL node over into an attribute named after it, whose value holds
/// its entries and its children: one for one, no value inspected. Used only
/// by [`parse_document`].
#[verifier::external_body]
fn attribute_from_node(node: &kdl::KdlNode) -> Attribute {
    Attribute {
        name: Some(node.name().value().to_string()),
        ty: node.ty().map(|ty| ty.value().to_string()),
        value: Value::Node(Attributes {
            entries: node.entries().iter().map(attribute_from_entry).collect(),
            children: node.children().map(|d| d.nodes().iter().map(attribute_from_node).collect()).unwrap_or_default(),
            blocks: Vec::new(),
        }),
    }
}

/// Carries a KDL entry over into an attribute, one for one: the float's bits
/// are kept as they are. Used only by the two parse wrappers.
#[verifier::external_body]
fn attribute_from_entry(entry: &kdl::KdlEntry) -> Attribute {
    Attribute {
        name: entry.name().map(|name| name.value().to_string()),
        ty: entry.ty().map(|ty| ty.value().to_string()),
        value: match entry.value() {
            kdl::KdlValue::Bool(b) => Value::Bool(*b),
            kdl::KdlValue::Float(float) => Value::Float(float.to_bits()),
            kdl::KdlValue::Integer(integer) => Value::Int(*integer),
            kdl::KdlValue::Null => Value::Null,
            kdl::KdlValue::String(string) => Value::String(string.clone()),
        },
    }
}

} // verus!
