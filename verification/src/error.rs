//! What can go wrong while a document is read.

use vstd::prelude::*;

verus! {

/// The place in a document at which an error was found.
pub type ErrorContext = &'static str;

pub const ERRCTX_UNKNOWN: ErrorContext = "in unknown context";

pub const ERRCTX_TEXT: ErrorContext = "in text node";

pub const ERRCTX_ATTNAME: ErrorContext = "in attribute name";

pub const ERRCTX_ELEMENT: ErrorContext = "in element";

pub const ERRCTX_ELEMENT_FOOT: ErrorContext = "in element footer";

pub const ERRCTX_XML_DECL: ErrorContext = "in XML declaration";

pub const ERRCTX_DOCBEGIN: ErrorContext = "at beginning of document";

/// A violation of the well-formedness rules of XML 1.0.
#[derive(Clone, PartialEq, Debug)]
pub enum WFError {
    /// The input ended in the middle of a document.
    InvalidEof(ErrorContext),
    /// A fixed piece of syntax is missing or misplaced.
    InvalidSyntax(&'static str),
    /// A token that cannot stand where it was found: the place, the name of the token, and the
    /// names of the tokens that could have stood there, where they are known.
    UnexpectedToken(ErrorContext, &'static str, Option<&'static [&'static str]>),
    /// Two attributes of one element have the same name.
    DuplicateAttribute,
    /// An end tag does not carry the name of the innermost open element.
    ElementMismatch,
}

/// A violation of the rules of Namespaces in XML 1.0.
#[derive(Clone, PartialEq, Debug)]
pub enum NWFError {
    /// A name with more than one colon.
    MultiColonName(ErrorContext),
    /// A name that starts or ends with its colon.
    EmptyNamePart(ErrorContext),
    /// A prefix that no declaration in scope binds.
    UndeclaredNamesacePrefix(ErrorContext),
    /// A declaration that rebinds a reserved prefix.
    ReservedNamespacePrefix,
}

#[derive(Clone, PartialEq, Debug)]
pub enum Error {
    NotWellFormed(WFError),
    NotNamespaceWellFormed(NWFError),
    /// Well-formed XML that lies outside the accepted subset.
    RestrictedXml(&'static str),
}

/// An [`Error`] as a mathematical value.
pub enum ErrorView {
    InvalidEof(Seq<char>),
    InvalidSyntax(Seq<char>),
    UnexpectedToken(Seq<char>, Seq<char>, Option<Seq<Seq<char>>>),
    DuplicateAttribute,
    ElementMismatch,
    MultiColonName(Seq<char>),
    EmptyNamePart(Seq<char>),
    UndeclaredNamesacePrefix(Seq<char>),
    ReservedNamespacePrefix,
    RestrictedXml(Seq<char>),
}

/// The texts that a list of strings holds.
pub open spec fn texts(list: Seq<&'static str>) -> Seq<Seq<char>> {
    list.map_values(|s: &'static str| s@)
}

impl View for Error {
    type V = ErrorView;

    open spec fn view(&self) -> ErrorView {
        match *self {
            Error::NotWellFormed(e) => match e {
                WFError::InvalidEof(ctx) => ErrorView::InvalidEof(ctx@),
                WFError::InvalidSyntax(msg) => ErrorView::InvalidSyntax(msg@),
                WFError::UnexpectedToken(ctx, name, None) => ErrorView::UnexpectedToken(
                    ctx@,
                    name@,
                    None,
                ),
                WFError::UnexpectedToken(ctx, name, Some(expected)) => ErrorView::UnexpectedToken(
                    ctx@,
                    name@,
                    Some(texts(expected@)),
                ),
                WFError::DuplicateAttribute => ErrorView::DuplicateAttribute,
                WFError::ElementMismatch => ErrorView::ElementMismatch,
            },
            Error::NotNamespaceWellFormed(e) => match e {
                NWFError::MultiColonName(ctx) => ErrorView::MultiColonName(ctx@),
                NWFError::EmptyNamePart(ctx) => ErrorView::EmptyNamePart(ctx@),
                NWFError::UndeclaredNamesacePrefix(ctx) => ErrorView::UndeclaredNamesacePrefix(
                    ctx@,
                ),
                NWFError::ReservedNamespacePrefix => ErrorView::ReservedNamespacePrefix,
            },
            Error::RestrictedXml(msg) => ErrorView::RestrictedXml(msg@),
        }
    }
}

impl Error {
    /// The error for an input that ends too early.
    pub fn wfeof(ctx: ErrorContext) -> (e: Error)
        ensures
            e@ == ErrorView::InvalidEof(ctx@),
    {
        Error::NotWellFormed(WFError::InvalidEof(ctx))
    }
}

} // verus!
