//! The events of a document, raw as the tokenizer finds them and decoded
//! as the tree builder reads them.

use crate::attrs::{Attrs, Pairs};
use vstd::prelude::*;

verus! {

/// Reading stopped at malformed input, `offset` bytes into it.
#[derive(Clone, Copy, PartialEq, Eq, Debug, Structural)]
pub struct ParseError {
    pub offset: u64,
}

/// What a piece of markup is, before its content has been decoded.
#[derive(Clone, Copy, PartialEq, Eq, Debug, Structural)]
pub enum RawKind {
    /// An opening tag.
    Start,
    /// A closing tag.
    End,
    /// A self-closing tag.
    Empty,
    /// Character data between tags.
    Text,
    /// A comment, a declaration, a processing instruction, a CDATA section
    /// or a document type.
    Other,
}

/// One piece of the input as the tokenizer found it: for a tag its name and
/// the text of its attribute list, for character data the text with its
/// escapes still in place, and the position in the input right after it.
#[derive(Debug)]
pub struct RawEvent {
    pub kind: RawKind,
    pub name: String,
    pub body: String,
    pub offset: u64,
}

/// A raw event as specifications see it.
pub struct RawModel {
    pub kind: RawKind,
    pub name: Seq<char>,
    pub body: Seq<char>,
    pub offset: u64,
}

impl View for RawEvent {
    type V = RawModel;

    open spec fn view(&self) -> RawModel {
        RawModel { kind: self.kind, name: self.name@, body: self.body@, offset: self.offset }
    }
}

/// The events of a document, decoded, up to the place where reading ended,
/// and the error that ended it if it did not end with the input.
#[derive(Debug)]
pub struct EventStream {
    pub events: Vec<XmlEvent>,
    pub failure: Option<ParseError>,
}

/// A structural event of a document.
#[derive(Debug)]
pub enum XmlEvent {
    /// An opening tag with its attributes.
    Start { name: String, attrs: Attrs },
    /// A closing tag.
    End { name: String },
    /// A self-closing tag with its attributes.
    Empty { name: String, attrs: Attrs },
    /// Character data, decoded.
    Text { content: String },
}

/// A structural event as specifications see it.
pub enum EventModel {
    Start { name: Seq<char>, attrs: Pairs },
    End { name: Seq<char> },
    Empty { name: Seq<char>, attrs: Pairs },
    Text { content: Seq<char> },
}

impl View for XmlEvent {
    type V = EventModel;

    open spec fn view(&self) -> EventModel {
        match *self {
            XmlEvent::Start { name, attrs } => EventModel::Start { name: name@, attrs: attrs@ },
            XmlEvent::End { name } => EventModel::End { name: name@ },
            XmlEvent::Empty { name, attrs } => EventModel::Empty { name: name@, attrs: attrs@ },
            XmlEvent::Text { content } => EventModel::Text { content: content@ },
        }
    }
}

/// The views of a list of events, in order.
pub open spec fn event_views(events: Seq<XmlEvent>) -> Seq<EventModel> {
    Seq::new(events.len(), |i: int| events[i]@)
}

} // verus!
