//! The grammar of documents: what a parser makes of each token.

use vstd::prelude::*;

use crate::error::{
    ErrorView, ERRCTX_ATTNAME, ERRCTX_DOCBEGIN, ERRCTX_ELEMENT, ERRCTX_ELEMENT_FOOT, ERRCTX_TEXT,
    ERRCTX_XML_DECL,
};
use crate::event::EventView;
use crate::lexer::{ReadView, Token, TokenView};
use crate::name::{assemble, split, QNameView};
use crate::text::same_ignoring_case;

verus! {

/// The namespace that the prefix `xml` is always bound to.
pub const XML_NAMESPACE: &'static str = "http://www.w3.org/XML/1998/namespace";

/// What an XML declaration has to go on with.
#[derive(Clone, Copy, PartialEq, Debug)]
pub enum DeclSt {
    VersionName,
    VersionEq,
    VersionValue,
    EncodingName,
    EncodingEq,
    EncodingValue,
    StandaloneName,
    StandaloneEq,
    StandaloneValue,
    Close,
}

/// What a document has to go on with.
pub enum StateView {
    /// Nothing has been read yet.
    Initial,
    /// Inside the XML declaration, with the version once it has been read.
    Decl(DeclSt, Option<Seq<char>>),
    /// After the XML declaration, before the root element.
    Expected,
    /// Inside the head of an element, where another attribute may start.
    AttrName,
    /// After the name of an attribute.
    AttrEq(QNameView),
    /// After the name of an attribute and `=`.
    AttrValue(QNameView),
    /// Inside the content of an element.
    CData,
    /// After `</` and the name of an element.
    ElementFoot,
    /// The document is over, or has been given up.
    Eof,
}

/// The namespace declarations of one element: the URI for each prefix, the default namespace
/// under the empty prefix.
pub type Scope = Map<Seq<char>, Seq<char>>;

/// An attribute as it is written: its name, split at the colon, and its value.
pub struct AttributeView {
    pub name: QNameView,
    pub value: Seq<char>,
}

/// The head of an element, as far as it has been read.
#[verifier::ext_equal]
pub struct HeadView {
    /// The name of the element, split at the colon.
    pub name: QNameView,
    pub attributes: Seq<AttributeView>,
    pub decls: Scope,
}

/// A parser as a mathematical value.
#[verifier::ext_equal]
pub struct ParserView {
    pub state: StateView,
    /// The names of the open elements, as they are written, from the outermost inwards.
    pub names: Seq<Seq<char>>,
    /// The namespace declarations of the open elements, from the outermost inwards.
    pub scopes: Seq<Scope>,
    /// The element head that is being read.
    pub head: Option<HeadView>,
    /// The events that have not been handed out yet.
    pub queue: Seq<EventView>,
}

impl ParserView {
    /// A parser that has read nothing.
    pub open spec fn initial() -> ParserView {
        ParserView {
            state: StateView::Initial,
            names: Seq::empty(),
            scopes: Seq::empty(),
            head: None,
            queue: Seq::empty(),
        }
    }

    /// A parser that reads nothing any more.
    pub open spec fn ended(queue: Seq<EventView>) -> ParserView {
        ParserView {
            state: StateView::Eof,
            names: Seq::empty(),
            scopes: Seq::empty(),
            head: None,
            queue,
        }
    }

    /// What every state that a parser can be in fulfils.
    pub open spec fn wf(self) -> bool {
        &&& self.names.len() == self.scopes.len()
        &&& match self.state {
            StateView::Initial | StateView::Expected => self.head is None && self.names.len() == 0,
            StateView::Decl(st, version) => {
                &&& self.head is None
                &&& self.names.len() == 0
                &&& version == if st is VersionName || st is VersionEq || st is VersionValue {
                    None
                } else {
                    Some("1.0"@)
                }
            },
            StateView::AttrName | StateView::AttrEq(_) | StateView::AttrValue(
                _,
            ) => self.head is Some,
            StateView::CData | StateView::ElementFoot => self.head is None && self.names.len() > 0,
            StateView::Eof => self.head is None && self.names.len() == 0,
        }
    }

    /// The parser has to read a token before it can tell anything.
    pub open spec fn waiting(self) -> bool {
        self.queue.len() == 0 && !(self.state is Eof)
    }

    /// The same parser in another state.
    pub open spec fn at(self, state: StateView) -> ParserView {
        ParserView { state, ..self }
    }

    /// The same parser with one more event to hand out.
    pub open spec fn emit(self, event: EventView) -> ParserView {
        ParserView { queue: self.queue.push(event), ..self }
    }
}

/// The URI that `prefix` stands for: that of the innermost declaration.
pub open spec fn lookup(scopes: Seq<Scope>, prefix: Seq<char>) -> Option<Seq<char>>
    decreases scopes.len(),
{
    if prefix == "xml"@ {
        Some(XML_NAMESPACE@)
    } else if scopes.len() == 0 {
        None
    } else if scopes.last().contains_key(prefix) {
        Some(scopes.last()[prefix])
    } else {
        lookup(scopes.drop_last(), prefix)
    }
}

/// The resolved name of an attribute, if its prefix is declared. An attribute without a prefix is
/// in no namespace.
pub open spec fn attribute_name(scopes: Seq<Scope>, name: QNameView) -> Option<QNameView> {
    match name.0 {
        None => Some((None, name.1)),
        Some(prefix) => match lookup(scopes, prefix) {
            Some(uri) => Some((Some(uri), name.1)),
            None => None,
        },
    }
}

/// The resolved name of an element, if its prefix is declared. An element without a prefix is in
/// the default namespace, if there is one.
pub open spec fn element_name(scopes: Seq<Scope>, name: QNameView) -> Option<QNameView> {
    match name.0 {
        None => Some((lookup(scopes, Seq::empty()), name.1)),
        Some(prefix) => match lookup(scopes, prefix) {
            Some(uri) => Some((Some(uri), name.1)),
            None => None,
        },
    }
}

/// The attributes by their resolved names. The first attribute that has an undeclared prefix, or
/// the same resolved name as one before it, is an error.
pub open spec fn resolve(scopes: Seq<Scope>, attributes: Seq<AttributeView>) -> Result<
    Map<QNameView, Seq<char>>,
    ErrorView,
>
    decreases attributes.len(),
{
    if attributes.len() == 0 {
        Ok(Map::empty())
    } else {
        match resolve(scopes, attributes.drop_last()) {
            Err(e) => Err(e),
            Ok(map) => match attribute_name(scopes, attributes.last().name) {
                None => Err(ErrorView::UndeclaredNamesacePrefix(ERRCTX_ATTNAME@)),
                Some(name) => if map.contains_key(name) {
                    Err(ErrorView::DuplicateAttribute)
                } else {
                    Ok(map.insert(name, attributes.last().value))
                },
            },
        }
    }
}

/// The start of the head of an element.
pub open spec fn begin_element(p: ParserView, name: Seq<char>) -> Result<ParserView, ErrorView> {
    match split(name) {
        Err(e) => Err(e),
        Ok(name) => Ok(
            ParserView {
                state: StateView::AttrName,
                head: Some(
                    HeadView { name, attributes: Seq::empty(), decls: Map::empty() },
                ),
                ..p
            },
        ),
    }
}

/// The prefix that an attribute of the given name declares, the empty one for the default
/// namespace. Reserved prefixes are not declared.
pub open spec fn declared_prefix(name: QNameView) -> Option<Seq<char>> {
    match name.0 {
        None => if name.1 == "xmlns"@ {
            Some(Seq::empty())
        } else {
            None
        },
        Some(prefix) => if prefix == "xmlns"@ && name.1 != "xmlns"@ && name.1 != "xml"@ {
            Some(name.1)
        } else {
            None
        },
    }
}

/// A namespace declaration in the head of an element.
pub open spec fn declare(p: ParserView, prefix: Seq<char>, uri: Seq<char>) -> Result<
    ParserView,
    ErrorView,
> {
    let head = p.head->0;
    if head.decls.contains_key(prefix) {
        Err(ErrorView::DuplicateAttribute)
    } else {
        Ok(
            ParserView {
                state: StateView::AttrName,
                head: Some(HeadView { decls: head.decls.insert(prefix, uri), ..head }),
                ..p
            },
        )
    }
}

/// An attribute in the head of an element, or a namespace declaration in the form of one. The
/// prefix `xmlns` cannot be declared, and `xml` only as what it is bound to anyway.
pub open spec fn add_attribute(p: ParserView, name: QNameView, value: Seq<char>) -> Result<
    ParserView,
    ErrorView,
> {
    let head = p.head->0;
    if name.0 == Some("xmlns"@) {
        if name.1 == "xmlns"@ {
            Err(ErrorView::ReservedNamespacePrefix)
        } else if name.1 == "xml"@ {
            if value == XML_NAMESPACE@ {
                Ok(p.at(StateView::AttrName))
            } else {
                Err(ErrorView::ReservedNamespacePrefix)
            }
        } else {
            declare(p, name.1, value)
        }
    } else if name.0 is None && name.1 == "xmlns"@ {
        declare(p, Seq::empty(), value)
    } else {
        Ok(
            ParserView {
                state: StateView::AttrName,
                head: Some(
                    HeadView {
                        attributes: head.attributes.push(AttributeView { name, value }),
                        ..head
                    },
                ),
                ..p
            },
        )
    }
}

/// The end of the head of an element: its declarations come into scope, its name and its
/// attributes are resolved, and it is open.
pub open spec fn open_element(p: ParserView) -> Result<ParserView, ErrorView> {
    let head = p.head->0;
    let scopes = p.scopes.push(head.decls);
    match element_name(scopes, head.name) {
        None => Err(ErrorView::UndeclaredNamesacePrefix(ERRCTX_ELEMENT@)),
        Some(name) => match resolve(scopes, head.attributes) {
            Err(e) => Err(e),
            Ok(attributes) => Ok(
                ParserView {
                    state: StateView::CData,
                    names: p.names.push(assemble(head.name)),
                    scopes,
                    head: None,
                    queue: p.queue.push(EventView::StartElement(name, attributes)),
                },
            ),
        },
    }
}

/// The end of the innermost open element. With the root element the document ends.
pub open spec fn close_element(p: ParserView) -> ParserView {
    ParserView {
        state: if p.names.len() == 1 {
            StateView::Eof
        } else {
            StateView::CData
        },
        names: p.names.drop_last(),
        scopes: p.scopes.drop_last(),
        head: p.head,
        queue: p.queue.push(EventView::EndElement),
    }
}

/// The error for a token that cannot stand where it was found.
pub open spec fn unexpected<T>(
    ctx: Seq<char>,
    name: Seq<char>,
    expected: Option<Seq<Seq<char>>>,
) -> Result<T, ErrorView> {
    Err(ErrorView::UnexpectedToken(ctx, name, expected))
}

/// The error for an input that ends too early.
pub open spec fn early_end<T>(ctx: Seq<char>) -> Result<T, ErrorView> {
    Err(ErrorView::InvalidEof(ctx))
}

/// The first token of a document.
pub open spec fn initial_step(p: ParserView, token: Option<TokenView>) -> Result<
    ParserView,
    ErrorView,
> {
    match token {
        Some(TokenView::XMLDeclStart) => Ok(p.at(StateView::Decl(DeclSt::VersionName, None))),
        Some(TokenView::ElementHeadStart(name)) => begin_element(p, name),
        Some(token) => unexpected(
            ERRCTX_DOCBEGIN@,
            token.name(),
            Some(seq![Token::NAME_ELEMENTHEADSTART@, Token::NAME_XMLDECLSTART@]),
        ),
        None => early_end(ERRCTX_DOCBEGIN@),
    }
}

/// A token of the XML declaration: `version` and `=` and `1.0`, then perhaps `encoding` and `=`
/// and `utf-8`, then perhaps `standalone` and `=` and `yes`.
pub open spec fn decl_step(
    p: ParserView,
    st: DeclSt,
    version: Option<Seq<char>>,
    token: Option<TokenView>,
) -> Result<ParserView, ErrorView> {
    match (st, token) {
        (_, None) => early_end(ERRCTX_XML_DECL@),
        (DeclSt::VersionName, Some(TokenView::Name(name))) => if name == "version"@ {
            Ok(p.at(StateView::Decl(DeclSt::VersionEq, version)))
        } else {
            Err(ErrorView::InvalidSyntax("'<?xml' must be followed by version attribute"@))
        },
        (DeclSt::EncodingName, Some(TokenView::Name(name))) => if name == "encoding"@ {
            Ok(p.at(StateView::Decl(DeclSt::EncodingEq, version)))
        } else {
            Err(
                ErrorView::InvalidSyntax(
                    "'version' attribute must be followed by '?>' or 'encoding' attribute"@,
                ),
            )
        },
        (DeclSt::StandaloneName, Some(TokenView::Name(name))) => if name == "standalone"@ {
            Ok(p.at(StateView::Decl(DeclSt::StandaloneEq, version)))
        } else {
            Err(
                ErrorView::InvalidSyntax(
                    "'encoding' attribute must be followed by '?>' or 'standalone' attribute"@,
                ),
            )
        },
        (DeclSt::VersionEq, Some(TokenView::Eq)) => Ok(
            p.at(StateView::Decl(DeclSt::VersionValue, version)),
        ),
        (DeclSt::EncodingEq, Some(TokenView::Eq)) => Ok(
            p.at(StateView::Decl(DeclSt::EncodingValue, version)),
        ),
        (DeclSt::StandaloneEq, Some(TokenView::Eq)) => Ok(
            p.at(StateView::Decl(DeclSt::StandaloneValue, version)),
        ),
        (DeclSt::VersionValue, Some(TokenView::AttributeValue(value))) => if value == "1.0"@ {
            Ok(p.at(StateView::Decl(DeclSt::EncodingName, Some(value))))
        } else {
            Err(ErrorView::RestrictedXml("only XML version 1.0 is allowed"@))
        },
        (DeclSt::EncodingValue, Some(TokenView::AttributeValue(value))) => if same_ignoring_case(
            value,
            "utf-8"@,
        ) {
            Ok(p.at(StateView::Decl(DeclSt::StandaloneName, version)))
        } else {
            Err(ErrorView::RestrictedXml("only utf-8 encoding is allowed"@))
        },
        (DeclSt::StandaloneValue, Some(TokenView::AttributeValue(value))) => if same_ignoring_case(
            value,
            "yes"@,
        ) {
            Ok(p.at(StateView::Decl(DeclSt::Close, version)))
        } else {
            Err(ErrorView::RestrictedXml("only standalone documents are allowed"@))
        },
        (
            DeclSt::EncodingName | DeclSt::StandaloneName | DeclSt::Close,
            Some(TokenView::XMLDeclEnd),
        ) => Ok(p.at(StateView::Expected).emit(EventView::XMLDeclaration(version->0))),
        (_, Some(token)) => unexpected(ERRCTX_XML_DECL@, token.name(), None),
    }
}

/// The name by which an error inside the head of an element calls a token: there `>` goes by the
/// name of `/>`, and the value of an attribute by that of `=`.
pub open spec fn name_in_head(token: TokenView) -> Seq<char> {
    match token {
        TokenView::ElementHFEnd => Token::NAME_ELEMENTHEADCLOSE@,
        TokenView::AttributeValue(_) => Token::NAME_EQ@,
        _ => token.name(),
    }
}

/// A token of the head of an element.
pub open spec fn element_step(p: ParserView, token: Option<TokenView>) -> Result<
    ParserView,
    ErrorView,
> {
    match (p.state, token) {
        (StateView::Expected, None) => early_end(ERRCTX_DOCBEGIN@),
        (_, None) => early_end(ERRCTX_ELEMENT@),
        (StateView::Expected, Some(TokenView::ElementHeadStart(name))) => begin_element(p, name),
        (StateView::AttrName, Some(TokenView::ElementHFEnd)) => open_element(p),
        (StateView::AttrName, Some(TokenView::ElementHeadClose)) => match open_element(p) {
            Ok(q) => Ok(close_element(q)),
            Err(e) => Err(e),
        },
        (StateView::AttrName, Some(TokenView::Name(name))) => match split(name) {
            Ok(name) => Ok(p.at(StateView::AttrEq(name))),
            Err(e) => Err(e),
        },
        (StateView::AttrEq(name), Some(TokenView::Eq)) => Ok(p.at(StateView::AttrValue(name))),
        (StateView::AttrValue(name), Some(TokenView::AttributeValue(value))) => add_attribute(
            p,
            name,
            value,
        ),
        (_, Some(token)) => unexpected(ERRCTX_ELEMENT@, name_in_head(token), None),
    }
}

/// A token of the content of an element.
pub open spec fn content_step(p: ParserView, token: Option<TokenView>) -> Result<
    ParserView,
    ErrorView,
> {
    match token {
        Some(TokenView::Text(text)) => Ok(p.emit(EventView::Text(text))),
        Some(TokenView::ElementHeadStart(name)) => begin_element(p, name),
        Some(TokenView::ElementFootStart(name)) => if p.names.last() == name {
            Ok(p.at(StateView::ElementFoot))
        } else {
            Err(ErrorView::ElementMismatch)
        },
        Some(token) => unexpected(
            ERRCTX_TEXT@,
            token.name(),
            Some(
                seq![
                    Token::NAME_TEXT@,
                    Token::NAME_ELEMENTHEADSTART@,
                    Token::NAME_ELEMENTFOOTSTART@,
                ],
            ),
        ),
        None => early_end(ERRCTX_TEXT@),
    }
}

/// A token after `</` and the name of an element.
pub open spec fn foot_step(p: ParserView, token: Option<TokenView>) -> Result<
    ParserView,
    ErrorView,
> {
    match token {
        Some(TokenView::ElementHFEnd) => Ok(close_element(p)),
        Some(token) => unexpected(
            ERRCTX_ELEMENT_FOOT@,
            token.name(),
            Some(seq![Token::NAME_ELEMENTHFEND@]),
        ),
        None => early_end(ERRCTX_ELEMENT_FOOT@),
    }
}

/// What a parser makes of one attempt to read a token: how it goes on, or the error that makes it
/// give up. A parser at the end takes no notice.
pub open spec fn step(p: ParserView, read: ReadView) -> Result<ParserView, ErrorView> {
    match (p.state, read) {
        (StateView::Eof, _) => Ok(p),
        (_, Err(e)) => Err(e),
        (StateView::Initial, Ok(token)) => initial_step(p, token),
        (StateView::Decl(st, version), Ok(token)) => decl_step(p, st, version, token),
        (StateView::CData, Ok(token)) => content_step(p, token),
        (StateView::ElementFoot, Ok(token)) => foot_step(p, token),
        (_, Ok(token)) => element_step(p, token),
    }
}

/// What a parser makes of a row of such attempts.
pub open spec fn run(p: ParserView, reads: Seq<ReadView>) -> Result<ParserView, ErrorView>
    decreases reads.len(),
{
    if reads.len() == 0 {
        Ok(p)
    } else {
        match run(p, reads.drop_last()) {
            Err(e) => Err(e),
            Ok(q) => step(q, reads.last()),
        }
    }
}

/// The token ends the head of the element that is being read.
pub open spec fn ends_head(p: ParserView, token: Option<TokenView>) -> bool {
    &&& p.state is AttrName
    &&& token == Some(TokenView::ElementHFEnd) || token == Some(TokenView::ElementHeadClose)
}

/// The namespace declaration, prefix and URI, that the token completes.
pub open spec fn completed_declaration(state: StateView, token: Option<TokenView>) -> Option<
    (Seq<char>, Seq<char>),
> {
    match (state, token) {
        (StateView::AttrValue(name), Some(TokenView::AttributeValue(uri))) => match declared_prefix(
            name,
        ) {
            Some(prefix) => Some((prefix, uri)),
            None => None,
        },
        _ => None,
    }
}

/// What a parser that gives up over what it has read still holds. That is all it held before, but
/// for two cases: the head of an element that cannot be opened is gone, and the declarations in it
/// have come into scope; and of two declarations of one prefix in a head, the second has taken the
/// place of the first.
pub open spec fn abandoned(p: ParserView, read: ReadView) -> ParserView {
    let head = p.head->0;
    match read {
        Err(_) => p.at(StateView::Eof),
        Ok(token) => if ends_head(p, token) {
            ParserView {
                state: StateView::Eof,
                scopes: p.scopes.push(head.decls),
                head: None,
                ..p
            }
        } else {
            match completed_declaration(p.state, token) {
                Some((prefix, uri)) => ParserView {
                    state: StateView::Eof,
                    head: Some(HeadView { decls: head.decls.insert(prefix, uri), ..head }),
                    ..p
                },
                None => p.at(StateView::Eof),
            }
        },
    }
}

/// A parser that is asked for the next event, and reads `reads` on that occasion, holds `q`
/// afterwards.
pub open spec fn left(p: ParserView, reads: Seq<ReadView>, q: ParserView) -> bool {
    match run(p, reads) {
        Ok(m) => q == if m.queue.len() > 0 {
            ParserView { queue: m.queue.drop_first(), ..m }
        } else {
            m
        },
        Err(_) => {
            &&& reads.len() > 0
            &&& run(p, reads.drop_last()) matches Ok(m)
            &&& q == abandoned(m, reads.last())
        },
    }
}

/// What a parser tells when it is asked for the next event.
pub type OutcomeView = Result<Option<EventView>, ErrorView>;

/// A parser that is asked for the next event makes of `reads` what `outcome` says, and is left as
/// `q`. It reads as long as it has to, and no further: a parser that has an event to hand out
/// hands out the oldest one, and one at the end has nothing to tell. An error is told once and
/// ends the parser.
pub open spec fn asked(
    p: ParserView,
    reads: Seq<ReadView>,
    outcome: OutcomeView,
    q: ParserView,
) -> bool {
    &&& forall|i: int|
        0 <= i < reads.len() ==> (#[trigger] run(p, reads.take(i)) matches Ok(m) && m.waiting())
    &&& match run(p, reads) {
        Err(e) => outcome == OutcomeView::Err(e) && q == ParserView::ended(Seq::empty()),
        Ok(m) => {
            &&& !m.waiting()
            &&& if m.queue.len() > 0 {
                &&& outcome == OutcomeView::Ok(Some(m.queue.first()))
                &&& q == (ParserView { queue: m.queue.drop_first(), ..m })
            } else {
                outcome == OutcomeView::Ok(None) && q == m
            }
        },
    }
}

} // verus!
