//! Where each token can stand, and how a document goes on after it.

use vstd::prelude::*;

use crate::error::{
    ErrorView, ERRCTX_DOCBEGIN, ERRCTX_ELEMENT, ERRCTX_ELEMENT_FOOT, ERRCTX_TEXT, ERRCTX_UNKNOWN,
    ERRCTX_XML_DECL,
};
use crate::event::EventView;
use crate::grammar::{
    abandoned, asked, left, open_element, run, step, AttributeView, DeclSt, OutcomeView,
    ParserView, StateView,
};
use crate::lexer::{ReadView, Token, TokenView};
use crate::name::{
    first_colon_is_chosen, is_first_colon, split, split_is_undone_by_assemble, QNameView,
};
use crate::text::same_ignoring_case;
use crate::views::case_is_that_of_ascii_letters;

verus! {

/// A name is made of its parts: without a prefix it holds no colon, with one the only colon stands
/// between two parts that are not empty.
pub open spec fn made_of(name: Seq<char>, parts: QNameView) -> bool {
    &&& !parts.1.contains(':')
    &&& match parts.0 {
        None => name == parts.1,
        Some(prefix) => {
            &&& name == prefix + seq![':'] + parts.1
            &&& prefix.len() > 0
            &&& parts.1.len() > 0
            &&& !prefix.contains(':')
        },
    }
}

/// A name whose first colon starts or ends it.
pub open spec fn lacks_a_part(name: Seq<char>) -> bool {
    &&& name.len() > 0
    &&& {
        ||| name[0] == ':'
        ||| name.last() == ':' && !name.drop_last().contains(':')
    }
}

/// A name that goes on after its first colon, to another one.
pub open spec fn has_colons(name: Seq<char>) -> bool {
    &&& name.len() > 0
    &&& name[0] != ':'
    &&& exists|i: int, j: int|
        0 <= i < j < name.len() && #[trigger] name[i] == ':' && #[trigger] name[j] == ':'
}

/// What becomes of a name: its parts, or the error that says what is wrong with it.
pub open spec fn split_up(name: Seq<char>, result: Result<QNameView, ErrorView>) -> bool {
    match result {
        Ok(parts) => made_of(name, parts),
        Err(e) => {
            ||| lacks_a_part(name) && e == ErrorView::EmptyNamePart(ERRCTX_UNKNOWN@)
            ||| has_colons(name) && e == ErrorView::MultiColonName(ERRCTX_UNKNOWN@)
        },
    }
}

/// A name is split into the parts that it is made of. It is refused exactly if it starts with a
/// colon, ends with its only colon or has more than one, and the error says which.
pub proof fn names_are_split_at_their_only_colon(name: Seq<char>)
    ensures
        split_up(name, split(name)),
        split(name) is Err <==> lacks_a_part(name) || has_colons(name),
        !(lacks_a_part(name) && has_colons(name)),
{
    split_is_undone_by_assemble(name);
    first_colon_is_chosen(name);
    if name.contains(':') {
        let i = choose|i: int| is_first_colon(name, i);
        let local = name.skip(i + 1);
        if i == 0 {
        } else if i == name.len() - 1 {
            assert(!name.drop_last().contains(':'));
        } else if local.contains(':') {
            let k = choose|k: int| 0 <= k < local.len() && local[k] == ':';
            assert(name[i] == ':' && name[i + 1 + k] == ':');
            assert(name.drop_last()[i] == ':');
        } else {
            assert(name.drop_last()[i] == ':');
            assert forall|j: int| 0 <= j < name.len() && #[trigger] name[j] == ':' implies j
                == i by {
                if j > i {
                    assert(local[j - i - 1] == ':');
                }
            }
        }
    }
}

/// A text is what `lower` says, but for the case of ASCII letters.
pub open spec fn reads_as(text: Seq<char>, lower: Seq<char>) -> bool {
    &&& text.len() == lower.len()
    &&& forall|i: int|
        0 <= i < text.len() ==> {
            ||| #[trigger] text[i] == lower[i]
            ||| 'a' <= lower[i] <= 'z' && text[i] as int + 32 == lower[i] as int
        }
}

/// A token that an XML declaration can go on with.
pub open spec fn fits(st: DeclSt, token: TokenView) -> bool {
    match token {
        TokenView::Name(name) => {
            ||| st is VersionName && name == "version"@
            ||| st is EncodingName && name == "encoding"@
            ||| st is StandaloneName && name == "standalone"@
        },
        TokenView::Eq => st is VersionEq || st is EncodingEq || st is StandaloneEq,
        TokenView::AttributeValue(value) => {
            ||| st is VersionValue && value == "1.0"@
            ||| st is EncodingValue && reads_as(value, "utf-8"@)
            ||| st is StandaloneValue && reads_as(value, "yes"@)
        },
        TokenView::XMLDeclEnd => st is EncodingName || st is StandaloneName || st is Close,
        _ => false,
    }
}

/// An XML declaration goes on exactly with a token that fits: the exact names of its attributes,
/// each followed by `=`, the version `1.0`, and the encoding `utf-8` and `yes` for a standalone
/// document, these two in upper or lower case. It can end before the encoding, before
/// `standalone`, and has to after that. A wrong name or value is told apart from a token of the
/// wrong kind and from the end of the input.
pub proof fn declaration_takes_what_fits(
    p: ParserView,
    st: DeclSt,
    version: Option<Seq<char>>,
    token: TokenView,
)
    requires
        p.state == StateView::Decl(st, version),
    ensures
        step(p, Ok(Some(token))) is Ok <==> fits(st, token),
        step(p, Ok(Some(token))) matches Err(e) ==> match token {
            TokenView::Name(_) if st is VersionName => e == ErrorView::InvalidSyntax(
                "'<?xml' must be followed by version attribute"@,
            ),
            TokenView::Name(_) if st is EncodingName => e == ErrorView::InvalidSyntax(
                "'version' attribute must be followed by '?>' or 'encoding' attribute"@,
            ),
            TokenView::Name(_) if st is StandaloneName => e == ErrorView::InvalidSyntax(
                "'encoding' attribute must be followed by '?>' or 'standalone' attribute"@,
            ),
            TokenView::AttributeValue(_) if st is VersionValue => e == ErrorView::RestrictedXml(
                "only XML version 1.0 is allowed"@,
            ),
            TokenView::AttributeValue(_) if st is EncodingValue => e == ErrorView::RestrictedXml(
                "only utf-8 encoding is allowed"@,
            ),
            TokenView::AttributeValue(_) if st is StandaloneValue => e == ErrorView::RestrictedXml(
                "only standalone documents are allowed"@,
            ),
            _ => e == ErrorView::UnexpectedToken(ERRCTX_XML_DECL@, token.name(), None),
        },
        step(p, Ok(None)) == Err::<ParserView, _>(ErrorView::InvalidEof(ERRCTX_XML_DECL@)),
{
    reveal_strlit("utf-8");
    reveal_strlit("yes");
    if let TokenView::AttributeValue(value) = token {
        let (utf_8, yes) = ("utf-8"@, "yes"@);
        assert(utf_8.len() == 5 && utf_8[0] == 'u' && utf_8[1] == 't' && utf_8[2] == 'f' && utf_8[3]
            == '-' && utf_8[4] == '8');
        assert(yes.len() == 3 && yes[0] == 'y' && yes[1] == 'e' && yes[2] == 's');
        case_is_that_of_ascii_letters(value, utf_8);
        case_is_that_of_ascii_letters(value, yes);
        assert(same_ignoring_case(value, utf_8) <==> reads_as(value, utf_8));
        assert(same_ignoring_case(value, yes) <==> reads_as(value, yes));
    }
}

/// A token that fits moves an XML declaration on by one part and tells nothing, but for the end of
/// the declaration: that tells the version, and the root element has to follow.
pub proof fn declaration_moves_on(
    p: ParserView,
    st: DeclSt,
    version: Option<Seq<char>>,
    token: TokenView,
)
    requires
        p.state == StateView::Decl(st, version),
        fits(st, token),
    ensures
        step(p, Ok(Some(token))) matches Ok(q) && {
            &&& q.names == p.names && q.scopes == p.scopes && q.head == p.head
            &&& if token is XMLDeclEnd {
                &&& q.state is Expected
                &&& q.queue == p.queue.push(EventView::XMLDeclaration(version->0))
            } else {
                &&& q.queue == p.queue
                &&& q.state matches StateView::Decl(next, known)
                &&& known == if st is VersionValue {
                    Some("1.0"@)
                } else {
                    version
                }
                &&& match st {
                    DeclSt::VersionName => next is VersionEq,
                    DeclSt::VersionEq => next is VersionValue,
                    DeclSt::VersionValue => next is EncodingName,
                    DeclSt::EncodingName => next is EncodingEq,
                    DeclSt::EncodingEq => next is EncodingValue,
                    DeclSt::EncodingValue => next is StandaloneName,
                    DeclSt::StandaloneName => next is StandaloneEq,
                    DeclSt::StandaloneEq => next is StandaloneValue,
                    DeclSt::StandaloneValue => next is Close,
                    DeclSt::Close => false,
                }
            }
        },
{
    declaration_takes_what_fits(p, st, version, token);
}

/// An element starts: its head is empty but for its name, which has to be in order. Nothing else
/// changes, and nothing is told yet.
pub open spec fn head_starts(
    p: ParserView,
    name: Seq<char>,
    result: Result<ParserView, ErrorView>,
) -> bool {
    match result {
        Ok(q) => {
            &&& q.state is AttrName
            &&& q.head matches Some(head)
            &&& made_of(name, head.name)
            &&& head.attributes.len() == 0
            &&& head.decls == Map::<Seq<char>, Seq<char>>::empty()
            &&& q.names == p.names && q.scopes == p.scopes && q.queue == p.queue
        },
        Err(e) => split_up(name, Err(e)),
    }
}

/// A document starts with an XML declaration or with the root element, and with nothing else.
pub proof fn documents_start_with_declaration_or_root(p: ParserView, token: TokenView)
    requires
        p.state is Initial,
    ensures
        step(p, Ok(None)) == Err::<ParserView, _>(ErrorView::InvalidEof(ERRCTX_DOCBEGIN@)),
        match token {
            TokenView::XMLDeclStart => step(p, Ok(Some(token))) == Ok::<_, ErrorView>(
                ParserView { state: StateView::Decl(DeclSt::VersionName, None), ..p },
            ),
            TokenView::ElementHeadStart(name) => head_starts(p, name, step(p, Ok(Some(token)))),
            _ => step(p, Ok(Some(token))) == Err::<ParserView, _>(
                ErrorView::UnexpectedToken(
                    ERRCTX_DOCBEGIN@,
                    token.name(),
                    Some(seq![Token::NAME_ELEMENTHEADSTART@, Token::NAME_XMLDECLSTART@]),
                ),
            ),
        },
{
    if let TokenView::ElementHeadStart(name) = token {
        names_are_split_at_their_only_colon(name);
    }
}

/// The name by which an error inside the head of an element calls a token.
pub open spec fn called_in_head(token: TokenView) -> Seq<char> {
    if token is ElementHFEnd {
        Token::NAME_ELEMENTHEADCLOSE@
    } else if token is AttributeValue {
        Token::NAME_EQ@
    } else {
        token.name()
    }
}

/// After the XML declaration the root element has to start.
pub proof fn root_follows_declaration(p: ParserView, token: TokenView)
    requires
        p.state is Expected,
    ensures
        step(p, Ok(None)) == Err::<ParserView, _>(ErrorView::InvalidEof(ERRCTX_DOCBEGIN@)),
        match token {
            TokenView::ElementHeadStart(name) => head_starts(p, name, step(p, Ok(Some(token)))),
            _ => step(p, Ok(Some(token))) == Err::<ParserView, _>(
                ErrorView::UnexpectedToken(ERRCTX_ELEMENT@, called_in_head(token), None),
            ),
        },
{
    if let TokenView::ElementHeadStart(name) = token {
        names_are_split_at_their_only_colon(name);
    }
}

/// Inside the head of an element there are attributes, each a name, `=` and a value, and after a
/// complete one the end of the head; nothing else. The name has to be in order. Nothing is told
/// of an attribute by itself, and nothing but the head changes.
pub proof fn heads_hold_attributes(p: ParserView, token: TokenView)
    requires
        p.state is AttrName || p.state is AttrEq || p.state is AttrValue,
    ensures
        step(p, Ok(None)) == Err::<ParserView, _>(ErrorView::InvalidEof(ERRCTX_ELEMENT@)),
        match (p.state, token) {
            (StateView::AttrName, TokenView::ElementHFEnd) => true,
            (StateView::AttrName, TokenView::ElementHeadClose) => true,
            (StateView::AttrName, TokenView::Name(name)) => match step(p, Ok(Some(token))) {
                Ok(q) => {
                    &&& q.state matches StateView::AttrEq(parts)
                    &&& made_of(name, parts)
                    &&& q == (ParserView { state: q.state, ..p })
                },
                Err(e) => split_up(name, Err(e)),
            },
            (StateView::AttrEq(parts), TokenView::Eq) => step(p, Ok(Some(token))) == Ok::<
                _,
                ErrorView,
            >(ParserView { state: StateView::AttrValue(parts), ..p }),
            (StateView::AttrValue(_), TokenView::AttributeValue(_)) => true,
            _ => step(p, Ok(Some(token))) == Err::<ParserView, _>(
                ErrorView::UnexpectedToken(ERRCTX_ELEMENT@, called_in_head(token), None),
            ),
        },
{
    if let TokenView::Name(name) = token {
        names_are_split_at_their_only_colon(name);
    }
}

/// An attribute is a namespace declaration exactly if its prefix, or its name without a prefix, is
/// `xmlns`. A declaration is kept with those of the head under the prefix that it declares, the
/// empty one for the default namespace, and no attribute is told of it; the same prefix cannot be
/// declared twice. `xmlns` cannot be declared, and `xml` only as what it stands for anyway, which
/// changes nothing. Any other attribute is kept as it is written, after those before it.
pub proof fn attributes_are_kept_as_written(p: ParserView, name: QNameView, value: Seq<char>)
    requires
        p.state == StateView::AttrValue(name),
        p.head is Some,
    ensures
        ({
            let head = p.head->0;
            let declares = name.0 == Some("xmlns"@) || name.0 is None && name.1 == "xmlns"@;
            let prefix = if name.0 is Some {
                name.1
            } else {
                Seq::empty()
            };
            match step(p, Ok(Some(TokenView::AttributeValue(value)))) {
                Ok(q) => {
                    &&& q.state is AttrName
                    &&& q.names == p.names && q.scopes == p.scopes && q.queue == p.queue
                    &&& q.head matches Some(now)
                    &&& now.name == head.name
                    &&& if !declares {
                        &&& now.decls == head.decls
                        &&& now.attributes == head.attributes.push(AttributeView { name, value })
                    } else {
                        &&& now.attributes == head.attributes
                        &&& prefix != "xmlns"@
                        &&& prefix == "xml"@ ==> {
                            &&& value == "http://www.w3.org/XML/1998/namespace"@
                            &&& now.decls == head.decls
                        }
                        &&& prefix != "xml"@ ==> {
                            &&& !head.decls.contains_key(prefix)
                            &&& now.decls == head.decls.insert(prefix, value)
                        }
                    }
                },
                Err(e) => {
                    &&& declares
                    &&& if prefix == "xmlns"@ {
                        e == ErrorView::ReservedNamespacePrefix
                    } else if prefix == "xml"@ {
                        &&& value != "http://www.w3.org/XML/1998/namespace"@
                        &&& e == ErrorView::ReservedNamespacePrefix
                    } else {
                        &&& head.decls.contains_key(prefix)
                        &&& e == ErrorView::DuplicateAttribute
                    }
                },
            }
        }),
{
    reveal_strlit("xml");
    reveal_strlit("xmlns");
    assert("xml"@.len() == 3 && "xmlns"@.len() == 5);
}

/// `>` at the end of a head opens the element, and nothing else does. Its name is kept as it is
/// written, its declarations come into scope inside those before them, and one event is told.
pub proof fn head_end_opens_the_element(p: ParserView)
    requires
        p.state is AttrName,
        p.head is Some,
    ensures
        step(p, Ok(Some(TokenView::ElementHFEnd))) == open_element(p),
        open_element(p) matches Ok(q) ==> {
            let head = p.head->0;
            &&& q.state is CData
            &&& q.names == p.names.push(
                match head.name.0 {
                    Some(prefix) => prefix + seq![':'] + head.name.1,
                    None => head.name.1,
                },
            )
            &&& q.scopes == p.scopes.push(head.decls)
            &&& q.head is None
            &&& q.queue.len() == p.queue.len() + 1
            &&& q.queue.drop_last() == p.queue
            &&& q.queue.last() is StartElement
        },
{
}

/// `/>` at the end of a head opens the element and closes it at once: both are told, and what was
/// open and in scope before is so again. After the root element the document is over.
pub proof fn empty_element_leaves_nothing_open(p: ParserView)
    requires
        p.state is AttrName,
        p.head is Some,
    ensures
        match (open_element(p), step(p, Ok(Some(TokenView::ElementHeadClose)))) {
            (Ok(opened), Ok(q)) => {
                &&& q.queue == opened.queue.push(EventView::EndElement)
                &&& q.names == p.names
                &&& q.scopes == p.scopes
                &&& q.head is None
                &&& if p.names.len() == 0 {
                    q.state is Eof
                } else {
                    q.state is CData
                }
            },
            (Err(a), Err(b)) => a == b,
            _ => false,
        },
{
    if let Ok(q) = step(p, Ok(Some(TokenView::ElementHeadClose))) {
        assert(q.names =~= p.names);
        assert(q.scopes =~= p.scopes);
    }
}

/// Inside an element there is text, which is told as it is, and there are elements; an end tag has
/// to carry the name of the innermost open element, as that was written. There is nothing else.
pub proof fn content_is_text_and_elements(p: ParserView, token: TokenView)
    requires
        p.state is CData,
        p.names.len() > 0,
    ensures
        step(p, Ok(None)) == Err::<ParserView, _>(ErrorView::InvalidEof(ERRCTX_TEXT@)),
        match token {
            TokenView::Text(text) => step(p, Ok(Some(token))) == Ok::<_, ErrorView>(
                ParserView { queue: p.queue.push(EventView::Text(text)), ..p },
            ),
            TokenView::ElementHeadStart(name) => head_starts(p, name, step(p, Ok(Some(token)))),
            TokenView::ElementFootStart(name) => step(p, Ok(Some(token))) == if name
                == p.names[p.names.len() - 1] {
                Ok(ParserView { state: StateView::ElementFoot, ..p })
            } else {
                Err(ErrorView::ElementMismatch)
            },
            _ => step(p, Ok(Some(token))) == Err::<ParserView, _>(
                ErrorView::UnexpectedToken(
                    ERRCTX_TEXT@,
                    token.name(),
                    Some(
                        seq![
                            Token::NAME_TEXT@,
                            Token::NAME_ELEMENTHEADSTART@,
                            Token::NAME_ELEMENTFOOTSTART@,
                        ],
                    ),
                ),
            ),
        },
{
    if let TokenView::ElementHeadStart(name) = token {
        names_are_split_at_their_only_colon(name);
    }
}

/// An end tag ends with `>` and nothing else. That closes the innermost element: its end is told,
/// and it and its declarations are gone. After the root element the document is over.
pub proof fn end_tag_closes_the_innermost_element(p: ParserView, token: TokenView)
    requires
        p.state is ElementFoot,
        p.names.len() > 0,
        p.names.len() == p.scopes.len(),
    ensures
        step(p, Ok(None)) == Err::<ParserView, _>(ErrorView::InvalidEof(ERRCTX_ELEMENT_FOOT@)),
        match step(p, Ok(Some(token))) {
            Ok(q) => {
                &&& token is ElementHFEnd
                &&& q.queue == p.queue.push(EventView::EndElement)
                &&& q.names.len() == p.names.len() - 1
                &&& q.scopes.len() == p.scopes.len() - 1
                &&& forall|i: int|
                    0 <= i < q.names.len() ==> #[trigger] q.names[i] == p.names[i]
                &&& forall|i: int|
                    0 <= i < q.scopes.len() ==> #[trigger] q.scopes[i] == p.scopes[i]
                &&& q.head == p.head
                &&& if q.names.len() == 0 {
                    q.state is Eof
                } else {
                    q.state is CData
                }
            },
            Err(e) => {
                &&& !(token is ElementHFEnd)
                &&& e == ErrorView::UnexpectedToken(
                    ERRCTX_ELEMENT_FOOT@,
                    token.name(),
                    Some(seq![Token::NAME_ELEMENTHFEND@]),
                )
            },
        },
{
}

/// What goes wrong with the input is handed on as it is, and a parser at its end takes no notice of
/// anything.
pub proof fn errors_of_the_input_are_handed_on(p: ParserView, read: ReadView, e: ErrorView)
    ensures
        p.state is Eof ==> step(p, read) == Ok::<_, ErrorView>(p),
        !(p.state is Eof) ==> step(p, Err(e)) == Err::<ParserView, _>(e),
{
}

/// What is read is taken in turn, each read on what the one before it left, until the first error.
pub proof fn reads_are_taken_in_turn(p: ParserView, reads: Seq<ReadView>, read: ReadView)
    ensures
        run(p, Seq::empty()) == Ok::<_, ErrorView>(p),
        run(p, reads.push(read)) == match run(p, reads) {
            Ok(q) => step(q, read),
            Err(e) => Err(e),
        },
{
    assert(reads.push(read).drop_last() =~= reads);
}

/// A parser that is asked for an event tells the first one that comes up, and stops reading then
/// and there. It reads nothing if it has one left to tell or is at its end. What it has not told
/// is left for later, in order. The first error is told as it is, and nothing after it.
pub proof fn first_event_is_told(
    p: ParserView,
    reads: Seq<ReadView>,
    outcome: OutcomeView,
    q: ParserView,
)
    ensures
        asked(p, reads, outcome, q) <==> {
            &&& forall|i: int|
                0 <= i < reads.len() ==> {
                    &&& #[trigger] run(p, reads.take(i)) matches Ok(m)
                    &&& m.queue.len() == 0
                    &&& !(m.state is Eof)
                }
            &&& match (run(p, reads), outcome) {
                (Ok(m), Ok(Some(event))) => {
                    &&& m.queue == seq![event] + q.queue
                    &&& q == (ParserView { queue: q.queue, ..m })
                },
                (Ok(m), Ok(None)) => m.state is Eof && m.queue.len() == 0 && q == m,
                (Err(e), Err(told)) => {
                    &&& told == e
                    &&& q.state is Eof
                    &&& q.queue.len() == 0
                    &&& q.names.len() == 0
                    &&& q.scopes.len() == 0
                    &&& q.head is None
                },
                _ => false,
            }
        },
{
    match (run(p, reads), outcome) {
        (Ok(m), Ok(Some(event))) => {
            if m.queue.len() > 0 {
                assert(m.queue =~= seq![m.queue.first()] + m.queue.drop_first());
            }
            assert((seq![event] + q.queue).drop_first() =~= q.queue);
        },
        (Err(_), Err(_)) => {
            if q.queue.len() == 0 && q.names.len() == 0 && q.scopes.len() == 0 {
                assert(q.queue =~= Seq::empty());
                assert(q.names =~= Seq::empty());
                assert(q.scopes =~= Seq::empty());
            }
        },
        _ => {},
    }
}

proof fn what_goes_on_has_gone_on(p: ParserView, reads: Seq<ReadView>, k: int)
    requires
        run(p, reads) is Ok,
        0 <= k <= reads.len(),
    ensures
        run(p, reads.take(k)) is Ok,
        k < reads.len() ==> step(run(p, reads.take(k))->Ok_0, reads[k]) == run(
            p,
            reads.take(k + 1),
        ),
    decreases reads.len(),
{
    if k == reads.len() {
        assert(reads.take(k) =~= reads);
    } else {
        let rest = reads.drop_last();
        what_goes_on_has_gone_on(p, rest, k);
        assert(rest.take(k) =~= reads.take(k));
        assert(reads.take(k + 1).drop_last() =~= reads.take(k));
    }
}

/// The token that was read at `k`, where there is one, is in order.
pub open spec fn token_at(reads: Seq<ReadView>, k: int, fits: spec_fn(TokenView) -> bool) -> bool {
    k < reads.len() ==> (reads[k] matches Ok(Some(token)) && fits(token))
}

/// Of a document that starts with an XML declaration nothing is accepted but these tokens, in this
/// order: `version`, `=` and `1.0`; then `encoding`, `=` and `utf-8` in upper or lower case; then
/// `standalone`, `=` and `yes` in upper or lower case; then the end. The end can come earlier,
/// before `encoding` or before `standalone`. So no document is accepted that names another
/// version or another encoding, or that is not standalone.
pub proof fn accepted_declarations_are_restricted(reads: Seq<ReadView>)
    requires
        reads.len() > 0,
        reads[0] == ReadView::Ok(Some(TokenView::XMLDeclStart)),
        run(ParserView::initial(), reads) is Ok,
    ensures
        token_at(reads, 1, |t: TokenView| t == TokenView::Name("version"@)),
        token_at(reads, 2, |t: TokenView| t is Eq),
        token_at(reads, 3, |t: TokenView| t == TokenView::AttributeValue("1.0"@)),
        token_at(
            reads,
            4,
            |t: TokenView| t is XMLDeclEnd || t == TokenView::Name("encoding"@),
        ),
        reads.len() > 4 && !(reads[4]->Ok_0->0 is XMLDeclEnd) ==> {
            &&& token_at(reads, 5, |t: TokenView| t is Eq)
            &&& token_at(
                reads,
                6,
                |t: TokenView| t matches TokenView::AttributeValue(v) && reads_as(v, "utf-8"@),
            )
            &&& token_at(
                reads,
                7,
                |t: TokenView| t is XMLDeclEnd || t == TokenView::Name("standalone"@),
            )
            &&& reads.len() > 7 && !(reads[7]->Ok_0->0 is XMLDeclEnd) ==> {
                &&& token_at(reads, 8, |t: TokenView| t is Eq)
                &&& token_at(
                    reads,
                    9,
                    |t: TokenView| t matches TokenView::AttributeValue(v) && reads_as(v, "yes"@),
                )
                &&& token_at(reads, 10, |t: TokenView| t is XMLDeclEnd)
            }
        },
{
    let p = ParserView::initial();
    assert(reads.take(0) =~= Seq::empty());
    what_goes_on_has_gone_on(p, reads, 0);
    declaration_at(reads, 1, DeclSt::VersionName, None);
    declaration_at(reads, 2, DeclSt::VersionEq, None);
    declaration_at(reads, 3, DeclSt::VersionValue, None);
    let version = Some("1.0"@);
    declaration_at(reads, 4, DeclSt::EncodingName, version);
    if reads.len() > 4 && !(reads[4]->Ok_0->0 is XMLDeclEnd) {
        declaration_at(reads, 5, DeclSt::EncodingEq, version);
        declaration_at(reads, 6, DeclSt::EncodingValue, version);
        declaration_at(reads, 7, DeclSt::StandaloneName, version);
        if reads.len() > 7 && !(reads[7]->Ok_0->0 is XMLDeclEnd) {
            declaration_at(reads, 8, DeclSt::StandaloneEq, version);
            declaration_at(reads, 9, DeclSt::StandaloneValue, version);
            declaration_at(reads, 10, DeclSt::Close, version);
        }
    }
}

proof fn declaration_at(reads: Seq<ReadView>, k: int, st: DeclSt, version: Option<Seq<char>>)
    requires
        run(ParserView::initial(), reads) is Ok,
        0 <= k < reads.len() ==> (run(ParserView::initial(), reads.take(k)) matches Ok(m) && m.state
            == StateView::Decl(st, version)),
    ensures
        0 <= k < reads.len() ==> {
            &&& reads[k] matches Ok(Some(token))
            &&& fits(st, token)
            &&& run(ParserView::initial(), reads.take(k + 1)) matches Ok(q)
            &&& !(token is XMLDeclEnd) ==> {
                &&& q.state matches StateView::Decl(next, known)
                &&& known == if st is VersionValue {
                    Some("1.0"@)
                } else {
                    version
                }
                &&& match st {
                    DeclSt::VersionName => next is VersionEq,
                    DeclSt::VersionEq => next is VersionValue,
                    DeclSt::VersionValue => next is EncodingName,
                    DeclSt::EncodingName => next is EncodingEq,
                    DeclSt::EncodingEq => next is EncodingValue,
                    DeclSt::EncodingValue => next is StandaloneName,
                    DeclSt::StandaloneName => next is StandaloneEq,
                    DeclSt::StandaloneEq => next is StandaloneValue,
                    DeclSt::StandaloneValue => next is Close,
                    DeclSt::Close => false,
                }
            }
        },
{
    if 0 <= k < reads.len() {
        let p = ParserView::initial();
        what_goes_on_has_gone_on(p, reads, k);
        what_goes_on_has_gone_on(p, reads, k + 1);
        let m = run(p, reads.take(k))->Ok_0;
        if let Ok(Some(token)) = reads[k] {
            declaration_takes_what_fits(m, st, version, token);
            declaration_moves_on(m, st, version, token);
        } else {
            declaration_takes_what_fits(m, st, version, TokenView::Eq);
        }
    }
}

/// What a parser holds that has given up: the events and the open elements that it had. If the
/// head of an element has come to its end, its declarations are in scope and the head is gone. If
/// a declaration of a prefix that is free to declare has come to its end, it is kept in the head.
/// Nothing else has changed.
pub proof fn what_is_left_by_an_error(p: ParserView, read: ReadView)
    ensures
        !(p.state is AttrName) && !(p.state is AttrValue) ==> abandoned(p, read) == (ParserView {
            state: StateView::Eof,
            ..p
        }),
        p.head is Some ==> {
            let (head, left) = (p.head->0, abandoned(p, read));
            let value = TokenView::AttributeValue(read->Ok_0->0->AttributeValue_0);
            let (end, close) = (TokenView::ElementHFEnd, TokenView::ElementHeadClose);
            &&& left.state is Eof
            &&& left.names == p.names
            &&& left.queue == p.queue
            &&& if p.state is AttrName && (read == ReadView::Ok(Some(end)) || read == ReadView::Ok(
                Some(close),
            )) {
                &&& left.scopes == p.scopes.push(head.decls)
                &&& left.head is None
            } else {
                &&& left.scopes == p.scopes
                &&& left.head matches Some(now)
                &&& now.name == head.name
                &&& now.attributes == head.attributes
                &&& now.decls == match p.state {
                    StateView::AttrValue((Some(prefix), local)) if prefix == "xmlns"@ && local
                        != "xmlns"@ && local != "xml"@ && read == ReadView::Ok(
                        Some(value),
                    ) => head.decls.insert(local, value->AttributeValue_0),
                    StateView::AttrValue((None, local)) if local == "xmlns"@ && read
                        == ReadView::Ok(Some(value)) => head.decls.insert(
                        Seq::empty(),
                        value->AttributeValue_0,
                    ),
                    _ => head.decls,
                }
            }
        },
{
}

/// What a parser holds after it was asked: what the reads have made of it, less the event that was
/// told; after an error, what that error left.
pub proof fn what_is_left_by_a_question(p: ParserView, reads: Seq<ReadView>, q: ParserView)
    ensures
        left(p, reads, q) <==> match run(p, reads) {
            Ok(m) => if m.queue.len() == 0 {
                q == m
            } else {
                &&& m.queue == seq![m.queue[0]] + q.queue
                &&& q == (ParserView { queue: q.queue, ..m })
            },
            Err(_) => {
                &&& reads.len() > 0
                &&& run(p, reads.take(reads.len() - 1)) matches Ok(m)
                &&& q == abandoned(m, reads[reads.len() - 1])
            },
        },
{
    match run(p, reads) {
        Ok(m) => {
            if m.queue.len() > 0 {
                assert(m.queue =~= seq![m.queue[0]] + m.queue.drop_first());
                assert((seq![m.queue[0]] + q.queue).drop_first() =~= q.queue);
            }
        },
        Err(_) => {
            if reads.len() > 0 {
                assert(reads.take(reads.len() - 1) =~= reads.drop_last());
            }
        },
    }
}

} // verus!
