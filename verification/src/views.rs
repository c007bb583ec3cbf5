//! What the mathematical values of the library stand for.

use vstd::prelude::*;
use vstd::std_specs::cmp::PartialEqSpec;

use crate::attributes::AttributeMap;
use crate::error::{
    texts, Error, ErrorView, NWFError, WFError, ERRCTX_ATTNAME, ERRCTX_DOCBEGIN, ERRCTX_ELEMENT,
    ERRCTX_ELEMENT_FOOT, ERRCTX_TEXT, ERRCTX_UNKNOWN, ERRCTX_XML_DECL,
};
use crate::event::{Event, EventView};
use crate::grammar::{OutcomeView, ParserView};
use crate::lexer::{read_of, CodepointRead, Lexer, ReadView, Token, TokenView};
use crate::name::{qname_of, text_of, QName, QNameView};
use crate::parser::{outcome_of, reads_in_turn, reads_of, LexerAdapter, Parser, TokenRead};
use crate::text::same_ignoring_case;

verus! {

/// The view of a token is of the same kind and holds the same text.
pub proof fn token_views_are_faithful(token: Token)
    ensures
        match token {
            Token::XMLDeclStart => token@ == TokenView::XMLDeclStart,
            Token::ElementHeadStart(name) => token@ == TokenView::ElementHeadStart(name@),
            Token::ElementHeadClose => token@ == TokenView::ElementHeadClose,
            Token::ElementHFEnd => token@ == TokenView::ElementHFEnd,
            Token::ElementFootStart(name) => token@ == TokenView::ElementFootStart(name@),
            Token::XMLDeclEnd => token@ == TokenView::XMLDeclEnd,
            Token::Name(name) => token@ == TokenView::Name(name@),
            Token::Eq => token@ == TokenView::Eq,
            Token::AttributeValue(value) => token@ == TokenView::AttributeValue(value@),
            Token::Text(text) => token@ == TokenView::Text(text@),
        },
{
}

/// The name by which errors call a token is the one of its kind.
pub proof fn token_names_are_those_of_the_kind(token: TokenView)
    ensures
        token.name() == match token {
            TokenView::XMLDeclStart => Token::NAME_XMLDECLSTART@,
            TokenView::ElementHeadStart(_) => Token::NAME_ELEMENTHEADSTART@,
            TokenView::ElementHeadClose => Token::NAME_ELEMENTHEADCLOSE@,
            TokenView::ElementHFEnd => Token::NAME_ELEMENTHFEND@,
            TokenView::ElementFootStart(_) => Token::NAME_ELEMENTFOOTSTART@,
            TokenView::XMLDeclEnd => Token::NAME_XMLDECLEND@,
            TokenView::Name(_) => Token::NAME_NAME@,
            TokenView::Eq => Token::NAME_EQ@,
            TokenView::AttributeValue(_) => Token::NAME_ATTRIBUTEVALUE@,
            TokenView::Text(_) => Token::NAME_TEXT@,
        },
{
}

/// Tokens go by the same name only if they are of the same kind.
pub proof fn token_names_tell_kinds_apart()
    ensures
        ({
            let names = seq![
                Token::NAME_XMLDECLSTART@,
                Token::NAME_ELEMENTHEADSTART@,
                Token::NAME_ELEMENTHEADCLOSE@,
                Token::NAME_ELEMENTHFEND@,
                Token::NAME_ELEMENTFOOTSTART@,
                Token::NAME_XMLDECLEND@,
                Token::NAME_NAME@,
                Token::NAME_EQ@,
                Token::NAME_ATTRIBUTEVALUE@,
                Token::NAME_TEXT@,
            ];
            forall|i: int, j: int| 0 <= i < j < names.len() ==> names[i] != names[j]
        }),
{
    reveal_strlit("'<?xml'");
    reveal_strlit("'<'");
    reveal_strlit("'/>'");
    reveal_strlit("'>'");
    reveal_strlit("'</'");
    reveal_strlit("'?>'");
    reveal_strlit("Name");
    reveal_strlit("'='");
    reveal_strlit("AttributeValue");
    reveal_strlit("Text");
    let names = seq![
        "'<?xml'"@,
        "'<'"@,
        "'/>'"@,
        "'>'"@,
        "'</'"@,
        "'?>'"@,
        "Name"@,
        "'='"@,
        "AttributeValue"@,
        "Text"@,
    ];
    assert forall|i: int, j: int| 0 <= i < j < names.len() implies names[i] != names[j] by {
        let (a, b) = (names[i], names[j]);
        assert(a.len() != b.len() || a[1] != b[1] || a[2] != b[2] || a[0] != b[0]);
    }
}

/// The places that errors name are told apart.
pub proof fn error_contexts_are_told_apart()
    ensures
        ({
            let contexts = seq![
                ERRCTX_UNKNOWN@,
                ERRCTX_TEXT@,
                ERRCTX_ATTNAME@,
                ERRCTX_ELEMENT@,
                ERRCTX_ELEMENT_FOOT@,
                ERRCTX_XML_DECL@,
                ERRCTX_DOCBEGIN@,
            ];
            forall|i: int, j: int| 0 <= i < j < contexts.len() ==> contexts[i] != contexts[j]
        }),
{
    reveal_strlit("in unknown context");
    reveal_strlit("in text node");
    reveal_strlit("in attribute name");
    reveal_strlit("in element");
    reveal_strlit("in element footer");
    reveal_strlit("in XML declaration");
    reveal_strlit("at beginning of document");
    let contexts = seq![
        "in unknown context"@,
        "in text node"@,
        "in attribute name"@,
        "in element"@,
        "in element footer"@,
        "in XML declaration"@,
        "at beginning of document"@,
    ];
    assert forall|i: int, j: int| 0 <= i < j < contexts.len() implies contexts[i]
        != contexts[j] by {
        let (a, b) = (contexts[i], contexts[j]);
        assert(a.len() != b.len() || a[3] != b[3]);
    }
}

/// The view of an error is of the same kind and holds the same texts.
pub proof fn error_views_are_faithful(e: Error)
    ensures
        match e {
            Error::NotWellFormed(WFError::InvalidEof(ctx)) => e@ == ErrorView::InvalidEof(ctx@),
            Error::NotWellFormed(WFError::InvalidSyntax(msg)) => e@ == ErrorView::InvalidSyntax(
                msg@,
            ),
            Error::NotWellFormed(WFError::UnexpectedToken(ctx, name, expected)) => {
                &&& e@ matches ErrorView::UnexpectedToken(ctx_view, name_view, expected_view)
                &&& ctx_view == ctx@
                &&& name_view == name@
                &&& expected_view is Some <==> expected is Some
                &&& expected is Some ==> {
                    &&& expected_view->0.len() == expected->0@.len()
                    &&& forall|i: int|
                        0 <= i < expected->0@.len() ==> #[trigger] expected_view->0[i]
                            == expected->0@[i]@
                }
            },
            Error::NotWellFormed(WFError::DuplicateAttribute) => e@
                == ErrorView::DuplicateAttribute,
            Error::NotWellFormed(WFError::ElementMismatch) => e@ == ErrorView::ElementMismatch,
            Error::NotNamespaceWellFormed(NWFError::MultiColonName(ctx)) => e@
                == ErrorView::MultiColonName(ctx@),
            Error::NotNamespaceWellFormed(NWFError::EmptyNamePart(ctx)) => e@
                == ErrorView::EmptyNamePart(ctx@),
            Error::NotNamespaceWellFormed(NWFError::UndeclaredNamesacePrefix(ctx)) => e@
                == ErrorView::UndeclaredNamesacePrefix(ctx@),
            Error::NotNamespaceWellFormed(NWFError::ReservedNamespacePrefix) => e@
                == ErrorView::ReservedNamespacePrefix,
            Error::RestrictedXml(msg) => e@ == ErrorView::RestrictedXml(msg@),
        },
{
}

/// The texts of a list of strings are those of its strings, one by one.
pub proof fn texts_are_those_of_the_strings(list: Seq<&'static str>)
    ensures
        texts(list).len() == list.len(),
        forall|i: int| 0 <= i < list.len() ==> #[trigger] texts(list)[i] == list[i]@,
{
}

/// The view of a name has a URI exactly if the name has one, and the same texts.
pub proof fn name_views_are_faithful(name: QName)
    ensures
        qname_of(name).1 == name.1@,
        qname_of(name).0 is Some <==> name.0 is Some,
        name.0 matches Some(uri) ==> qname_of(name).0 == Some(uri@),
        text_of(name.0) is Some <==> name.0 is Some,
        name.0 matches Some(uri) ==> text_of(name.0) == Some(uri@),
{
}

/// The view of an event is of the same kind and holds the same name, attributes and text.
pub proof fn event_views_are_faithful(event: Event)
    ensures
        match event {
            Event::XMLDeclaration(version) => event@ == EventView::XMLDeclaration(version@),
            Event::StartElement(name, attributes) => {
                &&& event@ matches EventView::StartElement(name_view, attributes_view)
                &&& name_view.1 == name.1@
                &&& name_view.0 is Some <==> name.0 is Some
                &&& name.0 matches Some(uri) ==> name_view.0 == Some(uri@)
                &&& attributes_view == attributes@
            },
            Event::EndElement => event@ == EventView::EndElement,
            Event::Text(text) => event@ == EventView::Text(text@),
        },
{
}

/// Two attribute maps are equal exactly if they hold the same names with the same values.
pub proof fn attribute_maps_are_equal_by_contents(a: AttributeMap, b: AttributeMap)
    ensures
        AttributeMap::obeys_eq_spec(),
        a.eq_spec(&b) <==> {
            &&& a@.dom() == b@.dom()
            &&& forall|name: QNameView|
                a@.contains_key(name) ==> #[trigger] a@[name] == b@[name]
        },
{
    if a@.dom() == b@.dom() && forall|name: QNameView|
        a@.contains_key(name) ==> #[trigger] a@[name] == b@[name] {
        assert(a@ =~= b@);
    }
}

/// What an attempt to read gave is kept: a token as its view, the end as the end, an error as its
/// view.
pub proof fn reads_are_faithful(reads: Seq<Result<Option<Token>, Error>>, i: int)
    requires
        0 <= i < reads.len(),
    ensures
        reads_of(reads).len() == reads.len(),
        reads_of(reads)[i] == read_of(reads[i]),
        match reads[i] {
            Ok(Some(token)) => read_of(reads[i]) == ReadView::Ok(Some(token@)),
            Ok(None) => read_of(reads[i]) == ReadView::Ok(None),
            Err(e) => read_of(reads[i]) == ReadView::Err(e@),
        },
{
}

/// What a parser told is kept: an event as its view, the end as the end, an error as its view.
pub proof fn outcomes_are_faithful(outcome: Result<Option<Event>, Error>)
    ensures
        match outcome {
            Ok(Some(event)) => outcome_of(outcome) == OutcomeView::Ok(Some(event@)),
            Ok(None) => outcome_of(outcome) == OutcomeView::Ok(None),
            Err(e) => outcome_of(outcome) == OutcomeView::Err(e@),
        },
{
}

/// A source from which nothing was read is as it was.
pub proof fn nothing_read_changes_nothing<R: TokenRead>(before: R, after: R)
    ensures
        reads_in_turn(before, Seq::empty(), after) <==> before == after,
{
}

/// What is read in turn comes one read after the other, each from where the one before it left
/// the source.
pub proof fn reads_come_one_after_the_other<R: TokenRead>(
    before: R,
    reads: Seq<Result<Option<Token>, Error>>,
    read: Result<Option<Token>, Error>,
    after: R,
)
    ensures
        reads_in_turn(before, reads.push(read), after) <==> exists|mid: R|
            reads_in_turn(before, reads, mid) && #[trigger] mid.reads(read, &after),
{
    let all = reads.push(read);
    assert(all.drop_last() =~= reads);
    assert(all.last() == read);
}

/// What an adapter reads is what its lexer finds in its source, as it is, and it leaves both as
/// the lexer leaves them.
pub proof fn adapter_reads_what_the_lexer_finds<'l, 'r, L: Lexer, R: CodepointRead>(
    before: &LexerAdapter<'l, 'r, L, R>,
    read: Result<Option<Token>, Error>,
    after: &LexerAdapter<'l, 'r, L, R>,
)
    ensures
        ({
            let (given, left) = (before, after);
            given.reads(read, left) <==> given.lexer.lexes(
                &*given.src,
                read,
                &*left.lexer,
                &*left.src,
            )
        }),
{
}

/// A new parser has read nothing, holds nothing and has nothing to tell.
pub proof fn new_parser_holds_nothing()
    ensures
        ParserView::initial().state is Initial,
        ParserView::initial().names.len() == 0,
        ParserView::initial().scopes.len() == 0,
        ParserView::initial().head is None,
        ParserView::initial().queue.len() == 0,
{
}

/// A parser at its end holds nothing but what it still has to tell.
pub proof fn ended_parser_holds_its_events(queue: Seq<EventView>)
    ensures
        ParserView::ended(queue).state is Eof,
        ParserView::ended(queue).names.len() == 0,
        ParserView::ended(queue).scopes.len() == 0,
        ParserView::ended(queue).head is None,
        ParserView::ended(queue).queue == queue,
{
}

/// A parser is what it holds, until it comes to its end: from there on only the events that it has
/// not told yet count.
pub proof fn parser_is_what_it_holds(parser: Parser)
    ensures
        parser@.queue == parser.contents().queue,
        parser@.state == parser.contents().state,
        if parser@.state is Eof {
            parser@.names.len() == 0 && parser@.scopes.len() == 0 && parser@.head is None
        } else {
            parser@ == parser.contents()
        },
{
}

/// Texts that are the same up to case have equal characters, or an upper-case and a lower-case
/// ASCII letter, at each place.
pub proof fn case_is_that_of_ascii_letters(a: Seq<char>, b: Seq<char>)
    ensures
        same_ignoring_case(a, b) <==> {
            &&& a.len() == b.len()
            &&& forall|i: int|
                0 <= i < a.len() ==> {
                    ||| #[trigger] a[i] == b[i]
                    ||| 'A' <= a[i] <= 'Z' && b[i] as int == a[i] as int + 32
                    ||| 'A' <= b[i] <= 'Z' && a[i] as int == b[i] as int + 32
                }
        },
{
}

} // verus!
