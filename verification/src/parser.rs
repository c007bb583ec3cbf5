//! The parser, which turns tokens into events.

use std::collections::VecDeque;

use vstd::hash_map::StringHashMap;
use vstd::prelude::*;

use crate::attributes::AttributeMap;
use crate::error::{
    texts, Error, ErrorView, NWFError, WFError, ERRCTX_ATTNAME, ERRCTX_DOCBEGIN, ERRCTX_ELEMENT,
    ERRCTX_ELEMENT_FOOT, ERRCTX_TEXT, ERRCTX_XML_DECL,
};
use crate::event::EventView;
use crate::grammar::{
    abandoned, add_attribute, asked, begin_element, close_element, completed_declaration,
    decl_step, declare, declared_prefix, element_step, ends_head, initial_step, left, lookup,
    open_element, resolve, run, step, AttributeView, DeclSt, HeadView, OutcomeView, ParserView,
    Scope, StateView,
};
use crate::laws::step_keeps_wf;
use crate::lexer::{read_of, CodepointRead, Lexer, ReadView, Token, TokenView};
use crate::name::{split_name, text_of, QNameView};
use crate::text::{eq_ignore_ascii_case, same_text};

pub use crate::event::Event;
pub use crate::grammar::XML_NAMESPACE;

verus! {

/// A source of tokens.
pub trait TokenRead {
    /// A source in the state `self` may give `read` and then be in the state `after`. Of a source
    /// that does not say more, anything may come.
    open spec fn reads(&self, read: Result<Option<Token>, Error>, after: &Self) -> bool {
        true
    }

    /// The next token, or `None` at the end of the input.
    fn read(&mut self) -> (read: Result<Option<Token>, Error>)
        ensures
            old(self).reads(read, final(self)),
    ;
}

/// A source in the state `before` may give `reads`, one after the other, and then be in the state
/// `after`.
pub open spec fn reads_in_turn<R: TokenRead>(
    before: R,
    reads: Seq<Result<Option<Token>, Error>>,
    after: R,
) -> bool
    decreases reads.len(),
{
    if reads.len() == 0 {
        before == after
    } else {
        exists|mid: R|
            reads_in_turn(before, reads.drop_last(), mid) && #[trigger] mid.reads(
                reads.last(),
                &after,
            )
    }
}

/// What a row of attempts to read a token gave, as mathematical values.
pub open spec fn reads_of(reads: Seq<Result<Option<Token>, Error>>) -> Seq<ReadView> {
    reads.map_values(|read: Result<Option<Token>, Error>| read_of(read))
}

/// What a parser told, as a mathematical value.
pub open spec fn outcome_of(outcome: Result<Option<Event>, Error>) -> OutcomeView {
    match outcome {
        Ok(Some(event)) => Ok(Some(event@)),
        Ok(None) => Ok(None),
        Err(e) => Err(e@),
    }
}

/// A source of tokens made of a lexer and the source of characters that it works on.
pub struct LexerAdapter<'l, 'r, L: Lexer, R: CodepointRead> {
    pub lexer: &'l mut L,
    pub src: &'r mut R,
}

impl<'l, 'r, L: Lexer, R: CodepointRead> LexerAdapter<'l, 'r, L, R> {
    /// An adapter that works on the given lexer and source.
    pub fn new(lexer: &'l mut L, src: &'r mut R) -> (adapter: Self)
        ensures
            *adapter.lexer == *old(lexer),
            *adapter.src == *old(src),
            *final(adapter.lexer) == *final(lexer),
            *final(adapter.src) == *final(src),
    {
        LexerAdapter { lexer, src }
    }
}

impl<'l, 'r, L: Lexer, R: CodepointRead> TokenRead for LexerAdapter<'l, 'r, L, R> {
    open spec fn reads(&self, read: Result<Option<Token>, Error>, after: &Self) -> bool {
        self.lexer.lexes(&*self.src, read, &*after.lexer, &*after.src)
    }

    /// The next token that the lexer finds in the source.
    fn read(&mut self) -> (read: Result<Option<Token>, Error>)
        ensures
            old(self).lexer.lexes(
                &*old(self).src,
                read,
                &*final(self).lexer,
                &*final(self).src,
            ),
            *final(final(self).lexer) == *final(old(self).lexer),
            *final(final(self).src) == *final(old(self).src),
    {
        self.lexer.lex(self.src)
    }
}

enum ElementSt {
    /// The head of the root element is expected here, but nothing of it has been read.
    Expected,
    AttrName,
    /// prefix, localname
    AttrEq(Option<String>, String),
    /// prefix, localname
    AttrValue(Option<String>, String),
}

enum DocSt {
    Element(ElementSt),
    CData,
    ElementFoot,
}

enum State {
    Initial,
    Decl { substate: DeclSt, version: Option<String> },
    Document(DocSt),
    Eof,
}

impl View for ElementSt {
    type V = StateView;

    closed spec fn view(&self) -> StateView {
        match *self {
            ElementSt::Expected => StateView::Expected,
            ElementSt::AttrName => StateView::AttrName,
            ElementSt::AttrEq(prefix, localname) => StateView::AttrEq(
                (text_of(prefix), localname@),
            ),
            ElementSt::AttrValue(prefix, localname) => StateView::AttrValue(
                (text_of(prefix), localname@),
            ),
        }
    }
}

impl View for DocSt {
    type V = StateView;

    closed spec fn view(&self) -> StateView {
        match *self {
            DocSt::Element(st) => st@,
            DocSt::CData => StateView::CData,
            DocSt::ElementFoot => StateView::ElementFoot,
        }
    }
}

impl View for State {
    type V = StateView;

    closed spec fn view(&self) -> StateView {
        match *self {
            State::Initial => StateView::Initial,
            State::Decl { substate, version } => StateView::Decl(substate, text_of(version)),
            State::Document(st) => st@,
            State::Eof => StateView::Eof,
        }
    }
}

struct ElementScratchpad {
    prefix: Option<String>,
    localname: String,
    // no map here, as the names have to be resolved later on anyway
    attributes: Vec<(Option<String>, String, String)>,
    namespace_decls: StringHashMap<String>,
}

spec fn attribute_of(attribute: (Option<String>, String, String)) -> AttributeView {
    AttributeView { name: (text_of(attribute.0), attribute.1@), value: attribute.2@ }
}

spec fn attributes_of(attributes: Seq<(Option<String>, String, String)>) -> Seq<AttributeView> {
    attributes.map_values(|a: (Option<String>, String, String)| attribute_of(a))
}

spec fn scope_of(decls: Map<Seq<char>, String>) -> Scope {
    decls.map_values(|uri: String| uri@)
}

spec fn scopes_of(scopes: Seq<StringHashMap<String>>) -> Seq<Scope> {
    scopes.map_values(|decls: StringHashMap<String>| scope_of(decls@))
}

spec fn names_of(names: Seq<String>) -> Seq<Seq<char>> {
    names.map_values(|name: String| name@)
}

spec fn events_of(events: Seq<Event>) -> Seq<EventView> {
    events.map_values(|event: Event| event@)
}

impl View for ElementScratchpad {
    type V = HeadView;

    closed spec fn view(&self) -> HeadView {
        HeadView {
            name: (text_of(self.prefix), self.localname@),
            attributes: attributes_of(self.attributes@),
            decls: scope_of(self.namespace_decls@),
        }
    }
}

spec fn head_of(head: Option<ElementScratchpad>) -> Option<HeadView> {
    match head {
        Some(head) => Some(head@),
        None => None,
    }
}

/// A parser: it is fed with tokens and asked for events.
pub struct Parser {
    state: State,
    /// The names of the open elements, as they are written, for quick checks of the end tags.
    element_stack: Vec<String>,
    namespace_stack: Vec<StringHashMap<String>>,
    element_scratchpad: Option<ElementScratchpad>,
    eventq: VecDeque<Event>,
}

impl View for Parser {
    type V = ParserView;

    /// What a parser that has come to its end still holds is of no consequence, but for the events
    /// that it has not told yet.
    open spec fn view(&self) -> ParserView {
        if self.contents().state is Eof {
            ParserView::ended(self.contents().queue)
        } else {
            self.contents()
        }
    }
}

impl Parser {
    /// All that the parser holds, whether or not it has come to its end.
    pub closed spec fn contents(&self) -> ParserView {
        self.with(self.state@)
    }

    /// The parser, taken to be in the given state.
    spec fn with(&self, state: StateView) -> ParserView {
        ParserView {
            state,
            names: names_of(self.element_stack@),
            scopes: scopes_of(self.namespace_stack@),
            head: head_of(self.element_scratchpad),
            queue: events_of(self.eventq@),
        }
    }

    /// A parser that has read nothing.
    pub fn new() -> (parser: Parser)
        ensures
            parser@ == ParserView::initial(),
            parser.contents() == ParserView::initial(),
            parser@.wf(),
    {
        let parser = Parser {
            state: State::Initial,
            element_stack: Vec::new(),
            namespace_stack: Vec::new(),
            element_scratchpad: None,
            eventq: VecDeque::new(),
        };
        assert(parser.contents() =~= ParserView::initial());
        parser
    }

    /// Appends an event to those that are still to be told.
    fn emit_event(&mut self, ev: Event)
        ensures
            final(self).state == old(self).state,
            final(self).element_stack == old(self).element_stack,
            final(self).namespace_stack == old(self).namespace_stack,
            final(self).element_scratchpad == old(self).element_scratchpad,
            events_of(final(self).eventq@) == events_of(old(self).eventq@).push(ev@),
    {
        self.eventq.push_back(ev);
        assert(events_of(self.eventq@) =~= events_of(old(self).eventq@).push(ev@));
    }

    /// Starts the head of an element.
    fn start_processing_element(&mut self, name: String) -> (res: Result<(), Error>)
        requires
            old(self).element_scratchpad is None,
        ensures
            final(self).state == old(self).state,
            match res {
                Ok(_) => forall|st: StateView|
                    begin_element(#[trigger] old(self).with(st), name@) == Ok::<
                        ParserView,
                        ErrorView,
                    >(final(self).with(StateView::AttrName)),
                Err(e) => {
                    &&& forall|st: StateView|
                        begin_element(#[trigger] old(self).with(st), name@) == Err::<
                            ParserView,
                            ErrorView,
                        >(e@)
                    &&& *final(self) == *old(self)
                },
            },
    {
        let (prefix, localname) = split_name(name)?;
        self.element_scratchpad =
        Some(
            ElementScratchpad {
                prefix,
                localname,
                attributes: Vec::new(),
                namespace_decls: StringHashMap::new(),
            },
        );
        proof {
            let head = self.element_scratchpad->0;
            assert(head@.attributes =~= Seq::empty());
            assert(head@.decls =~= Map::empty());
        }
        Ok(())
    }

    /// The URI that a prefix stands for.
    fn lookup_namespace<'a>(&'a self, prefix: &str) -> (uri: Option<&'a str>)
        ensures
            match uri {
                Some(uri) => lookup(scopes_of(self.namespace_stack@), prefix@) == Some(uri@),
                None => lookup(scopes_of(self.namespace_stack@), prefix@) is None,
            },
    {
        if same_text(prefix, "xml") {
            return Some(XML_NAMESPACE);
        }
        let ghost scopes = scopes_of(self.namespace_stack@);
        let mut i: usize = self.namespace_stack.len();
        assert(scopes.take(i as int) =~= scopes);
        while i > 0
            invariant
                i <= self.namespace_stack@.len(),
                scopes == scopes_of(self.namespace_stack@),
                prefix@ != "xml"@,
                lookup(scopes, prefix@) == lookup(scopes.take(i as int), prefix@),
            decreases i,
        {
            i -= 1;
            proof {
                assert(scopes.take(i + 1).last() == scope_of(self.namespace_stack@[i as int]@));
                assert(scopes.take(i + 1).drop_last() =~= scopes.take(i as int));
            }
            match self.namespace_stack[i].get(prefix) {
                Some(uri) => {
                    return Some(uri.as_str());
                },
                None => {},
            }
        }
        None
    }

    /// The attributes by their resolved names.
    fn resolve_attributes(&self, attributes: Vec<(Option<String>, String, String)>) -> (res: Result<
        AttributeMap,
        Error,
    >)
        ensures
            match res {
                Ok(map) => resolve(
                    scopes_of(self.namespace_stack@),
                    attributes_of(attributes@),
                ) == Ok::<Map<QNameView, Seq<char>>, ErrorView>(map@),
                Err(e) => resolve(
                    scopes_of(self.namespace_stack@),
                    attributes_of(attributes@),
                ) == Err::<Map<QNameView, Seq<char>>, ErrorView>(e@),
            },
    {
        let ghost scopes = scopes_of(self.namespace_stack@);
        let ghost views = attributes_of(attributes@);
        let mut resolved: AttributeMap = AttributeMap::new();
        for attribute in it: attributes.into_iter()
            invariant
                it.seq() == attributes@,
                scopes == scopes_of(self.namespace_stack@),
                views == attributes_of(attributes@),
                resolve(scopes, views.take(it.index())) == Ok::<
                    Map<QNameView, Seq<char>>,
                    ErrorView,
                >(resolved@),
        {
            let ghost i = it.index();
            proof {
                assert(views.take(i + 1).last() == attribute_of(attribute));
                assert(views.take(i + 1).drop_last() =~= views.take(i));
            }
            let (prefix, localname, value) = attribute;
            let nsuri: Option<String> = match prefix {
                Some(prefix) => match self.lookup_namespace(prefix.as_str()) {
                    Some(uri) => Some(uri.to_owned()),
                    None => {
                        proof {
                            resolve_fails_early(scopes, views, i + 1);
                        }
                        return Err(
                            Error::NotNamespaceWellFormed(
                                NWFError::UndeclaredNamesacePrefix(ERRCTX_ATTNAME),
                            ),
                        );
                    },
                },
                None => None,
            };
            if !resolved.insert((nsuri, localname), value) {
                proof {
                    resolve_fails_early(scopes, views, i + 1);
                }
                return Err(Error::NotWellFormed(WFError::DuplicateAttribute));
            }
        }
        assert(views.take(attributes@.len() as int) =~= views);
        Ok(resolved)
    }

    /// Resolves the names in the head of an element and opens the element.
    fn finalize_element(&mut self) -> (res: Result<(), Error>)
        requires
            old(self).element_scratchpad is Some,
        ensures
            final(self).state == old(self).state,
            match res {
                Ok(_) => open_element(old(self).with(StateView::AttrName)) == Ok::<
                    ParserView,
                    ErrorView,
                >(final(self).with(StateView::CData)),
                Err(e) => {
                    &&& open_element(old(self).with(StateView::AttrName)) == Err::<
                        ParserView,
                        ErrorView,
                    >(e@)
                    &&& final(self).eventq == old(self).eventq
                    &&& final(self).element_stack == old(self).element_stack
                    &&& final(self).element_scratchpad is None
                    &&& scopes_of(final(self).namespace_stack@) == scopes_of(
                        old(self).namespace_stack@,
                    ).push(old(self).element_scratchpad->0@.decls)
                },
            },
    {
        let mut tmp: Option<ElementScratchpad> = None;
        std::mem::swap(&mut tmp, &mut self.element_scratchpad);
        let ElementScratchpad { prefix, localname, attributes, namespace_decls } = tmp.unwrap();
        let ghost head = old(self).with(StateView::AttrName).head->0;
        self.namespace_stack.push(namespace_decls);
        let ghost scopes = scopes_of(self.namespace_stack@);
        assert(scopes =~= scopes_of(old(self).namespace_stack@).push(head.decls));
        proof {
            reveal_strlit("");
            assert(""@ =~= Seq::empty());
            reveal_strlit(":");
            assert(":"@ =~= seq![':']);
        }
        let (assembled_name, nsuri) = match prefix {
            None => (
                localname.clone(),
                match self.lookup_namespace("") {
                    Some(uri) => Some(uri.to_owned()),
                    None => None,
                },
            ),
            Some(prefix) => match self.lookup_namespace(prefix.as_str()) {
                Some(uri) => {
                    let mut name: String = prefix;
                    name.append(":");
                    name.append(localname.as_str());
                    (name, Some(uri.to_owned()))
                },
                None => {
                    return Err(
                        Error::NotNamespaceWellFormed(
                            NWFError::UndeclaredNamesacePrefix(ERRCTX_ELEMENT),
                        ),
                    );
                },
            },
        };
        let resolved_attributes: AttributeMap = self.resolve_attributes(attributes)?;
        let ev: Event = Event::StartElement((nsuri, localname), resolved_attributes);
        self.emit_event(ev);
        let ghost before = *self;
        self.element_stack.push(assembled_name);
        assert(names_of(self.element_stack@) =~= names_of(before.element_stack@).push(
            assembled_name@,
        ));
        Ok(())
    }

    /// Closes the innermost open element.
    fn pop_element(&mut self) -> (state: State)
        requires
            old(self).element_stack@.len() > 0,
            old(self).element_stack@.len() == old(self).namespace_stack@.len(),
        ensures
            final(self).state == old(self).state,
            forall|st: StateView|
                close_element(#[trigger] old(self).with(st)) == final(self).with(state@),
    {
        self.emit_event(Event::EndElement);
        let ghost before = *self;
        self.element_stack.pop();
        self.namespace_stack.pop();
        assert(names_of(self.element_stack@) =~= names_of(before.element_stack@).drop_last());
        assert(scopes_of(self.namespace_stack@) =~= scopes_of(before.namespace_stack@).drop_last());
        if self.element_stack.len() == 0 {
            State::Eof
        } else {
            State::Document(DocSt::CData)
        }
    }

    /// The parser has got from `before` to what the grammar gives as `next`: it has yet to be put
    /// into the state `res`, or to give up with an error. An error takes nothing from what there
    /// is to be told, and neither opens nor closes an element.
    spec fn went_on(
        &self,
        before: &Parser,
        next: Result<ParserView, ErrorView>,
        res: Result<State, Error>,
    ) -> bool {
        &&& self.state == before.state
        &&& match res {
            Ok(state) => next == Ok::<ParserView, ErrorView>(self.with(state@)),
            Err(e) => {
                &&& next == Err::<ParserView, ErrorView>(e@)
                &&& self.eventq == before.eventq
                &&& self.element_stack == before.element_stack
            },
        }
    }

    /// The parser differs from `before` only in that `prefix` is declared to stand for `uri` in the
    /// head that is being read, whether or not it was declared there already.
    spec fn only_declared(&self, before: &Parser, prefix: Seq<char>, uri: Seq<char>) -> bool {
        &&& self.state == before.state
        &&& self.element_stack == before.element_stack
        &&& self.namespace_stack == before.namespace_stack
        &&& self.eventq == before.eventq
        &&& before.element_scratchpad matches Some(pad)
        &&& self.element_scratchpad matches Some(new_pad)
        &&& new_pad.prefix == pad.prefix
        &&& new_pad.localname == pad.localname
        &&& new_pad.attributes == pad.attributes
        &&& new_pad@.decls == pad@.decls.insert(prefix, uri)
    }

    /// What is left of `before` when the parser gives up over a token, in the state `state`.
    spec fn gave_up(&self, before: &Parser, state: StateView, token: Option<TokenView>) -> bool {
        &&& self.with(StateView::Eof) == abandoned(before.with(state), Ok(token))
        &&& if ends_head(before.with(state), token) {
            &&& self.element_stack == before.element_stack
            &&& self.element_scratchpad is None
            &&& self.eventq == before.eventq
        } else {
            match completed_declaration(state, token) {
                Some((prefix, uri)) => self.only_declared(before, prefix, uri),
                None => *self == *before,
            }
        }
    }

    /// Takes in the first token of a document.
    fn parse_initial(&mut self, token: Option<Token>) -> (res: Result<State, Error>)
        requires
            old(self).with(StateView::Initial).wf(),
        ensures
            final(self).went_on(
                old(self),
                initial_step(old(self).with(StateView::Initial), token_of(token)),
                res,
            ),
            res is Err ==> *final(self) == *old(self),
    {
        match token {
            Some(Token::XMLDeclStart) => Ok(
                State::Decl { substate: DeclSt::VersionName, version: None },
            ),
            Some(Token::ElementHeadStart(name)) => {
                self.start_processing_element(name)?;
                Ok(State::Document(DocSt::Element(ElementSt::AttrName)))
            },
            Some(tok) => {
                let expected: &'static [&'static str] = &[
                    Token::NAME_ELEMENTHEADSTART,
                    Token::NAME_XMLDECLSTART,
                ];
                assert(texts(expected@) =~= seq![
                    Token::NAME_ELEMENTHEADSTART@,
                    Token::NAME_XMLDECLSTART@,
                ]);
                Err(
                    Error::NotWellFormed(
                        WFError::UnexpectedToken(ERRCTX_DOCBEGIN, tok.name(), Some(expected)),
                    ),
                )
            },
            None => Err(Error::wfeof(ERRCTX_DOCBEGIN)),
        }
    }

    /// Takes in a token of the XML declaration.
    fn parse_decl(
        &mut self,
        state: DeclSt,
        version: Option<String>,
        token: Option<Token>,
    ) -> (res: Result<State, Error>)
        requires
            old(self).with(StateView::Decl(state, text_of(version))).wf(),
        ensures
            final(self).went_on(
                old(self),
                decl_step(
                    old(self).with(StateView::Decl(state, text_of(version))),
                    state,
                    text_of(version),
                    token_of(token),
                ),
                res,
            ),
            !(res matches Ok(State::Document(_))) ==> *final(self) == *old(self),
    {
        match token {
            None => Err(Error::wfeof(ERRCTX_XML_DECL)),
            Some(Token::Name(name)) => match state {
                DeclSt::VersionName => {
                    if same_text(name.as_str(), "version") {
                        Ok(State::Decl { substate: DeclSt::VersionEq, version })
                    } else {
                        Err(
                            Error::NotWellFormed(
                                WFError::InvalidSyntax(
                                    "'<?xml' must be followed by version attribute",
                                ),
                            ),
                        )
                    }
                },
                DeclSt::EncodingName => {
                    if same_text(name.as_str(), "encoding") {
                        Ok(State::Decl { substate: DeclSt::EncodingEq, version })
                    } else {
                        Err(
                            Error::NotWellFormed(
                                WFError::InvalidSyntax(
                                    "'version' attribute must be followed by '?>' or 'encoding' attribute",
                                ),
                            ),
                        )
                    }
                },
                DeclSt::StandaloneName => {
                    if same_text(name.as_str(), "standalone") {
                        Ok(State::Decl { substate: DeclSt::StandaloneEq, version })
                    } else {
                        Err(
                            Error::NotWellFormed(
                                WFError::InvalidSyntax(
                                    "'encoding' attribute must be followed by '?>' or 'standalone' attribute",
                                ),
                            ),
                        )
                    }
                },
                _ => Err(
                    Error::NotWellFormed(
                        WFError::UnexpectedToken(ERRCTX_XML_DECL, Token::NAME_NAME, None),
                    ),
                ),
            },
            Some(Token::Eq) => match state {
                DeclSt::VersionEq => Ok(State::Decl { substate: DeclSt::VersionValue, version }),
                DeclSt::EncodingEq => Ok(State::Decl { substate: DeclSt::EncodingValue, version }),
                DeclSt::StandaloneEq => Ok(
                    State::Decl { substate: DeclSt::StandaloneValue, version },
                ),
                _ => Err(
                    Error::NotWellFormed(
                        WFError::UnexpectedToken(ERRCTX_XML_DECL, Token::NAME_EQ, None),
                    ),
                ),
            },
            Some(Token::AttributeValue(v)) => match state {
                DeclSt::VersionValue => {
                    if same_text(v.as_str(), "1.0") {
                        Ok(State::Decl { substate: DeclSt::EncodingName, version: Some(v) })
                    } else {
                        Err(Error::RestrictedXml("only XML version 1.0 is allowed"))
                    }
                },
                DeclSt::EncodingValue => {
                    if eq_ignore_ascii_case(v.as_str(), "utf-8") {
                        Ok(State::Decl { substate: DeclSt::StandaloneName, version })
                    } else {
                        Err(Error::RestrictedXml("only utf-8 encoding is allowed"))
                    }
                },
                DeclSt::StandaloneValue => {
                    if eq_ignore_ascii_case(v.as_str(), "yes") {
                        Ok(State::Decl { substate: DeclSt::Close, version })
                    } else {
                        Err(Error::RestrictedXml("only standalone documents are allowed"))
                    }
                },
                _ => Err(
                    Error::NotWellFormed(
                        WFError::UnexpectedToken(ERRCTX_XML_DECL, Token::NAME_ATTRIBUTEVALUE, None),
                    ),
                ),
            },
            Some(Token::XMLDeclEnd) => match state {
                DeclSt::EncodingName | DeclSt::StandaloneName | DeclSt::Close => {
                    self.emit_event(Event::XMLDeclaration(version.unwrap()));
                    Ok(State::Document(DocSt::Element(ElementSt::Expected)))
                },
                _ => Err(
                    Error::NotWellFormed(
                        WFError::UnexpectedToken(ERRCTX_XML_DECL, Token::NAME_XMLDECLEND, None),
                    ),
                ),
            },
            Some(other) => Err(
                Error::NotWellFormed(WFError::UnexpectedToken(ERRCTX_XML_DECL, other.name(), None)),
            ),
        }
    }

    /// Takes a namespace declaration into the head of the element that is being read.
    fn declare_namespace(&mut self, prefix: String, uri: String) -> (res: Result<State, Error>)
        requires
            old(self).element_scratchpad is Some,
        ensures
            forall|st: StateView|
                final(self).went_on(
                    old(self),
                    declare(#[trigger] old(self).with(st), prefix@, uri@),
                    res,
                ),
            final(self).only_declared(old(self), prefix@, uri@),
    {
        let scratchpad: &mut ElementScratchpad = self.element_scratchpad.as_mut().unwrap();
        let duplicate: bool = scratchpad.namespace_decls.contains_key(prefix.as_str());
        scratchpad.namespace_decls.insert(prefix, uri);
        proof {
            let before = old(self).element_scratchpad->0;
            let after = self.element_scratchpad->0;
            assert(after@.decls =~= before@.decls.insert(prefix@, uri@));
        }
        if duplicate {
            Err(Error::NotWellFormed(WFError::DuplicateAttribute))
        } else {
            Ok(State::Document(DocSt::Element(ElementSt::AttrName)))
        }
    }

    /// Takes an attribute, or a namespace declaration in the form of one, into the head of the
    /// element that is being read.
    fn process_attribute(
        &mut self,
        prefix: Option<String>,
        localname: String,
        val: String,
    ) -> (res: Result<State, Error>)
        requires
            old(self).element_scratchpad is Some,
        ensures
            forall|st: StateView|
                final(self).went_on(
                    old(self),
                    add_attribute(
                        #[trigger] old(self).with(st),
                        (text_of(prefix), localname@),
                        val@,
                    ),
                    res,
                ),
            match declared_prefix((text_of(prefix), localname@)) {
                Some(prefix) => final(self).only_declared(old(self), prefix, val@),
                None => res is Err ==> *final(self) == *old(self),
            },
    {
        let declares_prefix: bool = match &prefix {
            Some(prefix) => same_text(prefix.as_str(), "xmlns"),
            None => false,
        };
        if declares_prefix {
            // declares a namespace, kept elsewhere for later lookups
            if same_text(localname.as_str(), "xmlns") {
                Err(Error::NotNamespaceWellFormed(NWFError::ReservedNamespacePrefix))
            } else if same_text(localname.as_str(), "xml") {
                if same_text(val.as_str(), XML_NAMESPACE) {
                    Ok(State::Document(DocSt::Element(ElementSt::AttrName)))
                } else {
                    Err(Error::NotNamespaceWellFormed(NWFError::ReservedNamespacePrefix))
                }
            } else {
                self.declare_namespace(localname, val)
            }
        } else if prefix.is_none() && same_text(localname.as_str(), "xmlns") {
            // declares the default namespace, kept elsewhere for later lookups
            self.declare_namespace(String::new(), val)
        } else {
            let scratchpad: &mut ElementScratchpad = self.element_scratchpad.as_mut().unwrap();
            scratchpad.attributes.push((prefix, localname, val));
            proof {
                let before = old(self).element_scratchpad->0;
                let after = self.element_scratchpad->0;
                let attribute = AttributeView {
                    name: (text_of(prefix), localname@),
                    value: val@,
                };
                assert(after@.attributes =~= before@.attributes.push(attribute));
            }
            Ok(State::Document(DocSt::Element(ElementSt::AttrName)))
        }
    }

    /// Takes in a token of the head of an element.
    fn parse_element(&mut self, state: ElementSt, token: Option<Token>) -> (res: Result<
        State,
        Error,
    >)
        requires
            old(self).with(state@).wf(),
        ensures
            final(self).went_on(
                old(self),
                element_step(old(self).with(state@), token_of(token)),
                res,
            ),
            res is Err ==> final(self).gave_up(old(self), state@, token_of(token)),
    {
        match token {
            None => match state {
                ElementSt::Expected => Err(Error::wfeof(ERRCTX_DOCBEGIN)),
                _ => Err(Error::wfeof(ERRCTX_ELEMENT)),
            },
            Some(Token::ElementHeadStart(name)) => match state {
                ElementSt::Expected => {
                    self.start_processing_element(name)?;
                    Ok(State::Document(DocSt::Element(ElementSt::AttrName)))
                },
                _ => Err(
                    Error::NotWellFormed(
                        WFError::UnexpectedToken(
                            ERRCTX_ELEMENT,
                            Token::NAME_ELEMENTHEADSTART,
                            None,
                        ),
                    ),
                ),
            },
            Some(Token::ElementHFEnd) => match state {
                ElementSt::AttrName => {
                    self.finalize_element()?;
                    Ok(State::Document(DocSt::CData))
                },
                _ => Err(
                    Error::NotWellFormed(
                        WFError::UnexpectedToken(
                            ERRCTX_ELEMENT,
                            Token::NAME_ELEMENTHEADCLOSE,
                            None,
                        ),
                    ),
                ),
            },
            Some(Token::ElementHeadClose) => match state {
                ElementSt::AttrName => {
                    self.finalize_element()?;
                    Ok(self.pop_element())
                },
                _ => Err(
                    Error::NotWellFormed(
                        WFError::UnexpectedToken(
                            ERRCTX_ELEMENT,
                            Token::NAME_ELEMENTHEADCLOSE,
                            None,
                        ),
                    ),
                ),
            },
            Some(Token::Name(name)) => match state {
                ElementSt::AttrName => {
                    let (prefix, localname) = split_name(name)?;
                    Ok(State::Document(DocSt::Element(ElementSt::AttrEq(prefix, localname))))
                },
                _ => Err(
                    Error::NotWellFormed(
                        WFError::UnexpectedToken(ERRCTX_ELEMENT, Token::NAME_NAME, None),
                    ),
                ),
            },
            Some(Token::Eq) => match state {
                ElementSt::AttrEq(prefix, localname) => Ok(
                    State::Document(DocSt::Element(ElementSt::AttrValue(prefix, localname))),
                ),
                _ => Err(
                    Error::NotWellFormed(
                        WFError::UnexpectedToken(ERRCTX_ELEMENT, Token::NAME_EQ, None),
                    ),
                ),
            },
            Some(Token::AttributeValue(val)) => match state {
                ElementSt::AttrValue(prefix, localname) => self.process_attribute(
                    prefix,
                    localname,
                    val,
                ),
                _ => Err(
                    Error::NotWellFormed(
                        WFError::UnexpectedToken(ERRCTX_ELEMENT, Token::NAME_EQ, None),
                    ),
                ),
            },
            Some(tok) => Err(
                Error::NotWellFormed(WFError::UnexpectedToken(ERRCTX_ELEMENT, tok.name(), None)),
            ),
        }
    }

    /// Takes in a token of an element.
    fn parse_document(&mut self, state: DocSt, token: Option<Token>) -> (res: Result<State, Error>)
        requires
            old(self).with(state@).wf(),
        ensures
            final(self).went_on(
                old(self),
                step(old(self).with(state@), Ok(token_of(token))),
                res,
            ),
            res is Err ==> final(self).gave_up(old(self), state@, token_of(token)),
            state is CData && (token matches Some(Token::ElementFootStart(_))) ==> *final(self)
                == *old(self),
    {
        match state {
            DocSt::Element(substate) => self.parse_element(substate, token),
            DocSt::CData => match token {
                Some(Token::Text(s)) => {
                    self.emit_event(Event::Text(s));
                    Ok(State::Document(DocSt::CData))
                },
                Some(Token::ElementHeadStart(name)) => {
                    self.start_processing_element(name)?;
                    Ok(State::Document(DocSt::Element(ElementSt::AttrName)))
                },
                Some(Token::ElementFootStart(name)) => {
                    let innermost: &String = &self.element_stack[self.element_stack.len() - 1];
                    if same_text(innermost.as_str(), name.as_str()) {
                        Ok(State::Document(DocSt::ElementFoot))
                    } else {
                        Err(Error::NotWellFormed(WFError::ElementMismatch))
                    }
                },
                Some(tok) => {
                    let expected: &'static [&'static str] = &[
                        Token::NAME_TEXT,
                        Token::NAME_ELEMENTHEADSTART,
                        Token::NAME_ELEMENTFOOTSTART,
                    ];
                    assert(texts(expected@) =~= seq![
                        Token::NAME_TEXT@,
                        Token::NAME_ELEMENTHEADSTART@,
                        Token::NAME_ELEMENTFOOTSTART@,
                    ]);
                    Err(
                        Error::NotWellFormed(
                            WFError::UnexpectedToken(ERRCTX_TEXT, tok.name(), Some(expected)),
                        ),
                    )
                },
                None => Err(Error::wfeof(ERRCTX_TEXT)),
            },
            DocSt::ElementFoot => match token {
                Some(Token::ElementHFEnd) => Ok(self.pop_element()),
                Some(other) => {
                    let expected: &'static [&'static str] = &[Token::NAME_ELEMENTHFEND];
                    assert(texts(expected@) =~= seq![Token::NAME_ELEMENTHFEND@]);
                    Err(
                        Error::NotWellFormed(
                            WFError::UnexpectedToken(
                                ERRCTX_ELEMENT_FOOT,
                                other.name(),
                                Some(expected),
                            ),
                        ),
                    )
                },
                None => Err(Error::wfeof(ERRCTX_ELEMENT_FOOT)),
            },
        }
    }

    /// Takes in what one attempt to read a token gave. An error, be it that of the attempt or one
    /// found in the token, ends the parser; what it has to tell from before stays to be told. A
    /// parser at its end takes no notice.
    pub fn feed(&mut self, read: Result<Option<Token>, Error>) -> (res: Result<(), Error>)
        requires
            old(self)@.wf(),
        ensures
            final(self)@.wf(),
            match res {
                Ok(_) => {
                    &&& step(old(self)@, read_of(read)) == Ok::<ParserView, ErrorView>(final(self)@)
                    &&& step(old(self).contents(), read_of(read)) == Ok::<ParserView, ErrorView>(
                        final(self).contents(),
                    )
                },
                Err(e) => {
                    &&& step(old(self)@, read_of(read)) == Err::<ParserView, ErrorView>(e@)
                    &&& final(self)@ == ParserView::ended(old(self)@.queue)
                    &&& final(self).contents() == abandoned(old(self).contents(), read_of(read))
                },
            },
    {
        proof {
            step_keeps_wf(self@, read_of(read));
        }
        let mut tmp_state: State = State::Eof;
        std::mem::swap(&mut tmp_state, &mut self.state);
        self.state =
        match tmp_state {
            State::Eof => State::Eof,
            State::Initial => self.parse_initial(read?)?,
            State::Decl { substate, version } => self.parse_decl(substate, version, read?)?,
            State::Document(substate) => self.parse_document(substate, read?)?,
        };
        proof {
            if let Ok(q) = step(old(self)@, read_of(read)) {
                if q.state is Eof {
                    assert(q =~= ParserView::ended(q.queue));
                }
            }
        }
        Ok(())
    }

    /// The next event of the document whose tokens `r` gives, or `None` at its end.
    pub fn parse<'r, R: TokenRead>(&mut self, r: &'r mut R) -> (res: Result<Option<Event>, Error>)
        requires
            old(self)@.wf(),
        ensures
            final(self)@.wf(),
            exists|reads: Seq<Result<Option<Token>, Error>>|
                {
                    &&& #[trigger] reads_in_turn(*old(r), reads, *final(r))
                    &&& asked(old(self)@, reads_of(reads), outcome_of(res), final(self)@)
                    &&& left(old(self).contents(), reads_of(reads), final(self).contents())
                },
    {
        let ghost mut reads: Seq<Result<Option<Token>, Error>> = Seq::empty();
        // A source may go on forever without an event coming out of it, so nothing in the parser
        // bounds the loop. This counts the reads, without taking up memory, and so bounds them by
        // what a `Vec` can count.
        let mut steps: Vec<()> = Vec::new();
        loop
            invariant
                self@.wf(),
                reads_in_turn(*old(r), reads, *r),
                run(old(self)@, reads_of(reads)) == Ok::<ParserView, ErrorView>(self@),
                run(old(self).contents(), reads_of(reads)) == Ok::<ParserView, ErrorView>(
                    self.contents(),
                ),
                forall|i: int|
                    0 <= i < reads.len() ==> (#[trigger] run(
                        old(self)@,
                        reads_of(reads).take(i),
                    ) matches Ok(m) && m.waiting()),
            decreases usize::MAX - steps.len(),
        {
            if self.eventq.len() > 0 {
                let ghost before = self@;
                let event: Event = self.eventq.pop_front().unwrap();
                assert(self.contents().queue =~= before.queue.drop_first());
                return Ok(Some(event));
            }
            if matches!(self.state, State::Eof) {
                return Ok(None);
            }
            steps.push(());
            let ghost before = *r;
            let ghost from = self@;
            let read = r.read();
            proof {
                let all = reads.push(read);
                assert(all.drop_last() =~= reads);
                assert(reads_of(all).drop_last() =~= reads_of(reads));
                assert(before.reads(all.last(), &*r));
                assert(reads_in_turn(*old(r), all, *r));
                assert(from.queue =~= Seq::empty());
                assert forall|i: int| 0 <= i < all.len() implies (#[trigger] run(
                    old(self)@,
                    reads_of(all).take(i),
                ) matches Ok(m) && m.waiting()) by {
                    assert(reads_of(all).take(i) =~= reads_of(reads).take(i));
                    if i == reads.len() {
                        assert(reads_of(reads).take(i) =~= reads_of(reads));
                    }
                }
                reads = all;
            }
            self.feed(read)?;
        }
    }
}

/// A token, or the end of the input, as a mathematical value.
spec fn token_of(token: Option<Token>) -> Option<TokenView> {
    match token {
        Some(token) => Some(token@),
        None => None,
    }
}

/// What is an error in the first attributes is an error in all of them.
proof fn resolve_fails_early(scopes: Seq<Scope>, attributes: Seq<AttributeView>, k: int)
    requires
        0 <= k <= attributes.len(),
        resolve(scopes, attributes.take(k)) is Err,
    ensures
        resolve(scopes, attributes) == resolve(scopes, attributes.take(k)),
    decreases attributes.len(),
{
    if k < attributes.len() {
        assert(attributes.drop_last().take(k) =~= attributes.take(k));
        resolve_fails_early(scopes, attributes.drop_last(), k);
    } else {
        assert(attributes.take(k) =~= attributes);
    }
}

} // verus!
