//! What the parser tells about a document.

use vstd::prelude::*;

use crate::attributes::AttributeMap;
use crate::name::{clone_qname, qname_of, QName, QNameView};

verus! {

/// A piece of a document, in the order in which the pieces occur.
#[derive(PartialEq, Debug)]
pub enum Event {
    /// The XML declaration, with its version. Encoding and standalone are fixed and thus not
    /// part of the event.
    XMLDeclaration(String),
    /// The start of an element: its resolved name and its attributes.
    StartElement(QName, AttributeMap),
    /// The end of the innermost element that has been started.
    EndElement,
    /// Character data inside an element.
    Text(String),
}

/// An [`Event`] as a mathematical value.
pub enum EventView {
    XMLDeclaration(Seq<char>),
    StartElement(QNameView, Map<QNameView, Seq<char>>),
    EndElement,
    Text(Seq<char>),
}

impl View for Event {
    type V = EventView;

    open spec fn view(&self) -> EventView {
        match *self {
            Event::XMLDeclaration(version) => EventView::XMLDeclaration(version@),
            Event::StartElement(name, attributes) => EventView::StartElement(
                qname_of(name),
                attributes@,
            ),
            Event::EndElement => EventView::EndElement,
            Event::Text(text) => EventView::Text(text@),
        }
    }
}

impl Clone for Event {
    fn clone(&self) -> (copy: Event)
        ensures
            copy@ == self@,
    {
        match self {
            Event::XMLDeclaration(version) => Event::XMLDeclaration(version.clone()),
            Event::StartElement(name, attributes) => Event::StartElement(
                clone_qname(name),
                attributes.clone(),
            ),
            Event::EndElement => Event::EndElement,
            Event::Text(text) => Event::Text(text.clone()),
        }
    }
}

} // verus!
