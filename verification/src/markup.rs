//! The structural events of a markup document.
//!
//! A document is read as a sequence of events: an element opens with its
//! attributes, text arrives, an element closes, or the reader meets a fault
//! in the document's structure. Anything else a document holds is reported as
//! an event of no interest.

use vstd::prelude::*;

verus! {

/// One attribute of an element: its local name and its value.
#[derive(Clone, Debug)]
pub struct Attribute {
    pub name: String,
    pub value: String,
}

/// What an [`Attribute`] is to the contracts.
pub struct AttributeView {
    pub name: Seq<char>,
    pub value: Seq<char>,
}

impl View for Attribute {
    type V = AttributeView;

    open spec fn view(&self) -> AttributeView {
        AttributeView { name: self.name@, value: self.value@ }
    }
}

/// One structural event of a document.
#[derive(Clone, Debug)]
pub enum MarkupEvent {
    /// An element opens; `tag` is its local name.
    Open { tag: String, attributes: Vec<Attribute> },
    /// Text content inside an element.
    Text(String),
    /// An element closes; `tag` is its local name.
    Close { tag: String },
    /// The document's structure is broken here; `message` says how.
    Fault { message: String },
    /// Any other part of a document: its prologue and end, comments,
    /// whitespace between elements, and the like.
    Other,
}

/// What a [`MarkupEvent`] is to the contracts.
pub enum EventView {
    Open { tag: Seq<char>, attributes: Seq<AttributeView> },
    Text(Seq<char>),
    Close { tag: Seq<char> },
    Fault { message: Seq<char> },
    Other,
}

/// The views of a run of attributes, in order.
pub open spec fn attribute_views(attributes: Seq<Attribute>) -> Seq<AttributeView> {
    attributes.map_values(|a: Attribute| a@)
}

impl View for MarkupEvent {
    type V = EventView;

    open spec fn view(&self) -> EventView {
        match self {
            MarkupEvent::Open { tag, attributes } => EventView::Open {
                tag: tag@,
                attributes: attribute_views(attributes@),
            },
            MarkupEvent::Text(text) => EventView::Text(text@),
            MarkupEvent::Close { tag } => EventView::Close { tag: tag@ },
            MarkupEvent::Fault { message } => EventView::Fault { message: message@ },
            MarkupEvent::Other => EventView::Other,
        }
    }
}

/// The views of a run of events, in order.
pub open spec fn event_views(events: Seq<MarkupEvent>) -> Seq<EventView> {
    events.map_values(|e: MarkupEvent| e@)
}

/// The events that the reader reports for a document of these bytes, up to
/// and including the end of the document or the first fault.
pub uninterp spec fn document_events(bytes: Seq<u8>) -> Seq<EventView>;

/// Reads a whole document: `xml::reader::EventReader::new` makes a reader
/// with the default configuration, and the reader's iterator is drained.
/// Each event is carried over into a [`MarkupEvent`]: the local name of an
/// element and of each attribute, the attribute values, the text of a
/// `Characters` event, and for an error its `to_string()`.
///
/// Trusted: the events depend on the bytes alone, so they are the events
/// that `document_events` names. Nothing more is claimed of them.
#[verifier::external_body]
pub(crate) fn read_events(bytes: &[u8]) -> (events: Vec<MarkupEvent>)
    ensures
        event_views(events@) == document_events(bytes@),
{
    xml::reader::EventReader::new(bytes).into_iter().map(|event| match event {
        Ok(xml::reader::XmlEvent::StartElement { name, attributes, .. }) => MarkupEvent::Open {
            tag: name.local_name,
            attributes: attributes.into_iter().map(|a| Attribute { name: a.name.local_name, value: a.value }).collect(),
        },
        Ok(xml::reader::XmlEvent::Characters(text)) => MarkupEvent::Text(text),
        Ok(xml::reader::XmlEvent::EndElement { name }) => MarkupEvent::Close { tag: name.local_name },
        Err(fault) => MarkupEvent::Fault { message: fault.to_string() },
        Ok(_) => MarkupEvent::Other,
    }).collect()
}

} // verus!
