use rxml::error::{
    Error, NWFError, WFError, ERRCTX_ATTNAME, ERRCTX_DOCBEGIN, ERRCTX_ELEMENT, ERRCTX_ELEMENT_FOOT,
    ERRCTX_TEXT, ERRCTX_UNKNOWN, ERRCTX_XML_DECL,
};
use rxml::lexer::Token;
use rxml::name::split_name;
use rxml::parser::{Event, Parser, TokenRead};

struct Replay {
    reads: Vec<Result<Option<Token>, Error>>,
    count: usize,
}

impl Replay {
    fn new(tokens: Vec<Token>) -> Replay {
        let mut reads: Vec<Result<Option<Token>, Error>> = Vec::new();
        for token in tokens {
            reads.push(Ok(Some(token)));
        }
        Replay { reads, count: 0 }
    }
}

impl TokenRead for Replay {
    fn read(&mut self) -> Result<Option<Token>, Error> {
        self.count += 1;
        match self.reads.get(self.count - 1) {
            Some(read) => read.clone(),
            None => Ok(None),
        }
    }
}

fn parse_with(parser: &mut Parser, reader: &mut Replay) -> (Vec<Event>, Result<(), Error>) {
    let mut events: Vec<Event> = Vec::new();
    loop {
        match parser.parse(reader) {
            Ok(Some(event)) => events.push(event),
            Ok(None) => return (events, Ok(())),
            Err(e) => return (events, Err(e)),
        }
    }
}

fn error_of(tokens: Vec<Token>) -> Error {
    let (_, result) = parse_with(&mut Parser::new(), &mut Replay::new(tokens));
    result.err().unwrap()
}

fn head(name: &str) -> Token {
    Token::ElementHeadStart(name.to_string())
}

fn foot(name: &str) -> Token {
    Token::ElementFootStart(name.to_string())
}

fn name(name: &str) -> Token {
    Token::Name(name.to_string())
}

fn value(value: &str) -> Token {
    Token::AttributeValue(value.to_string())
}

fn unexpected(
    ctx: &'static str,
    token: &'static str,
    expected: Option<&'static [&'static str]>,
) -> Error {
    Error::NotWellFormed(WFError::UnexpectedToken(ctx, token, expected))
}

fn eof(ctx: &'static str) -> Error {
    Error::NotWellFormed(WFError::InvalidEof(ctx))
}

#[test]
fn input_that_ends_early() {
    assert_eq!(error_of(vec![]), eof(ERRCTX_DOCBEGIN));
    assert_eq!(error_of(vec![Token::XMLDeclStart]), eof(ERRCTX_XML_DECL));
    assert_eq!(error_of(vec![head("a")]), eof(ERRCTX_ELEMENT));
    assert_eq!(error_of(vec![head("a"), name("b")]), eof(ERRCTX_ELEMENT));
    assert_eq!(error_of(vec![head("a"), Token::ElementHFEnd]), eof(ERRCTX_TEXT));
    assert_eq!(
        error_of(vec![head("a"), Token::ElementHFEnd, foot("a")]),
        eof(ERRCTX_ELEMENT_FOOT)
    );
}

#[test]
fn tokens_out_of_place() {
    assert_eq!(
        error_of(vec![Token::Text("x".to_string())]),
        unexpected(
            ERRCTX_DOCBEGIN,
            Token::NAME_TEXT,
            Some(&[Token::NAME_ELEMENTHEADSTART, Token::NAME_XMLDECLSTART])
        )
    );
    assert_eq!(
        error_of(vec![head("a"), Token::ElementHFEnd, Token::Eq]),
        unexpected(
            ERRCTX_TEXT,
            Token::NAME_EQ,
            Some(&[
                Token::NAME_TEXT,
                Token::NAME_ELEMENTHEADSTART,
                Token::NAME_ELEMENTFOOTSTART
            ])
        )
    );
    assert_eq!(
        error_of(vec![head("a"), Token::ElementHFEnd, foot("a"), Token::ElementHeadClose]),
        unexpected(
            ERRCTX_ELEMENT_FOOT,
            Token::NAME_ELEMENTHEADCLOSE,
            Some(&[Token::NAME_ELEMENTHFEND])
        )
    );
    assert_eq!(
        error_of(vec![Token::XMLDeclStart, head("a")]),
        unexpected(ERRCTX_XML_DECL, Token::NAME_ELEMENTHEADSTART, None)
    );
    assert_eq!(
        error_of(vec![Token::XMLDeclStart, Token::XMLDeclEnd]),
        unexpected(ERRCTX_XML_DECL, Token::NAME_XMLDECLEND, None)
    );
    assert_eq!(
        error_of(vec![Token::XMLDeclStart, Token::Eq]),
        unexpected(ERRCTX_XML_DECL, Token::NAME_EQ, None)
    );
    assert_eq!(
        error_of(vec![Token::XMLDeclStart, value("1.0")]),
        unexpected(ERRCTX_XML_DECL, Token::NAME_ATTRIBUTEVALUE, None)
    );
    assert_eq!(
        error_of(vec![Token::XMLDeclStart, name("version"), name("version")]),
        unexpected(ERRCTX_XML_DECL, Token::NAME_NAME, None)
    );
}

#[test]
fn tokens_out_of_place_in_element_head() {
    assert_eq!(
        error_of(vec![head("a"), head("b")]),
        unexpected(ERRCTX_ELEMENT, Token::NAME_ELEMENTHEADSTART, None)
    );
    assert_eq!(
        error_of(vec![head("a"), name("b"), Token::ElementHFEnd]),
        unexpected(ERRCTX_ELEMENT, Token::NAME_ELEMENTHEADCLOSE, None)
    );
    assert_eq!(
        error_of(vec![head("a"), name("b"), Token::ElementHeadClose]),
        unexpected(ERRCTX_ELEMENT, Token::NAME_ELEMENTHEADCLOSE, None)
    );
    assert_eq!(
        error_of(vec![head("a"), value("b")]),
        unexpected(ERRCTX_ELEMENT, Token::NAME_EQ, None)
    );
    assert_eq!(
        error_of(vec![head("a"), Token::Eq]),
        unexpected(ERRCTX_ELEMENT, Token::NAME_EQ, None)
    );
    assert_eq!(
        error_of(vec![head("a"), name("b"), name("c")]),
        unexpected(ERRCTX_ELEMENT, Token::NAME_NAME, None)
    );
    assert_eq!(
        error_of(vec![head("a"), Token::Text("b".to_string())]),
        unexpected(ERRCTX_ELEMENT, Token::NAME_TEXT, None)
    );
}

fn declaration(parts: Vec<Token>) -> Vec<Token> {
    let mut tokens: Vec<Token> = vec![Token::XMLDeclStart, name("version"), Token::Eq, value("1.0")];
    tokens.extend(parts);
    tokens
}

#[test]
fn restricted_declarations() {
    assert_eq!(
        error_of(vec![Token::XMLDeclStart, name("version"), Token::Eq, value("1.1")]),
        Error::RestrictedXml("only XML version 1.0 is allowed")
    );
    assert_eq!(
        error_of(declaration(vec![name("encoding"), Token::Eq, value("latin1")])),
        Error::RestrictedXml("only utf-8 encoding is allowed")
    );
    assert_eq!(
        error_of(declaration(vec![
            name("encoding"),
            Token::Eq,
            value("utf-8"),
            name("standalone"),
            Token::Eq,
            value("no"),
        ])),
        Error::RestrictedXml("only standalone documents are allowed")
    );
}

#[test]
fn declarations_with_wrong_attributes() {
    assert_eq!(
        error_of(vec![Token::XMLDeclStart, name("encoding")]),
        Error::NotWellFormed(WFError::InvalidSyntax(
            "'<?xml' must be followed by version attribute"
        ))
    );
    assert_eq!(
        error_of(declaration(vec![name("standalone")])),
        Error::NotWellFormed(WFError::InvalidSyntax(
            "'version' attribute must be followed by '?>' or 'encoding' attribute"
        ))
    );
    assert_eq!(
        error_of(declaration(vec![name("encoding"), Token::Eq, value("utf-8"), name("foo")])),
        Error::NotWellFormed(WFError::InvalidSyntax(
            "'encoding' attribute must be followed by '?>' or 'standalone' attribute"
        ))
    );
}

#[test]
fn full_declaration_in_any_case() {
    let mut tokens: Vec<Token> = declaration(vec![
        name("encoding"),
        Token::Eq,
        value("UTF-8"),
        name("standalone"),
        Token::Eq,
        value("Yes"),
        Token::XMLDeclEnd,
    ]);
    tokens.extend(vec![head("a"), Token::ElementHeadClose]);
    let (events, result) = parse_with(&mut Parser::new(), &mut Replay::new(tokens));
    result.unwrap();
    assert_eq!(events[0], Event::XMLDeclaration("1.0".to_string()));
    assert_eq!(events.len(), 3);
}

#[test]
fn names_that_cannot_be_split() {
    let empty = Error::NotNamespaceWellFormed(NWFError::EmptyNamePart(ERRCTX_UNKNOWN));
    let multi = Error::NotNamespaceWellFormed(NWFError::MultiColonName(ERRCTX_UNKNOWN));
    assert_eq!(error_of(vec![head(":a")]), empty);
    assert_eq!(error_of(vec![head("a:")]), empty);
    assert_eq!(error_of(vec![head(":")]), empty);
    assert_eq!(error_of(vec![head("a:b:c")]), multi);
    assert_eq!(error_of(vec![head("a:b:")]), multi);
    assert_eq!(error_of(vec![head("a"), name("b::c")]), multi);
    assert_eq!(error_of(vec![head("a"), name(":b:")]), empty);
}

#[test]
fn names_are_split_at_their_colon() {
    assert_eq!(split_name("".to_string()).unwrap(), (None, "".to_string()));
    assert_eq!(split_name("abc".to_string()).unwrap(), (None, "abc".to_string()));
    assert_eq!(
        split_name("ab:cde".to_string()).unwrap(),
        (Some("ab".to_string()), "cde".to_string())
    );
    assert_eq!(
        split_name("é€:ü𝄞x".to_string()).unwrap(),
        (Some("é€".to_string()), "ü𝄞x".to_string())
    );
}

#[test]
fn undeclared_prefixes() {
    assert_eq!(
        error_of(vec![head("x:a"), Token::ElementHeadClose]),
        Error::NotNamespaceWellFormed(NWFError::UndeclaredNamesacePrefix(ERRCTX_ELEMENT))
    );
    assert_eq!(
        error_of(vec![head("a"), name("x:b"), Token::Eq, value("c"), Token::ElementHFEnd]),
        Error::NotNamespaceWellFormed(NWFError::UndeclaredNamesacePrefix(ERRCTX_ATTNAME))
    );
}

#[test]
fn first_attribute_at_fault_gives_the_error() {
    let duplicate = Error::NotWellFormed(WFError::DuplicateAttribute);
    let undeclared =
        Error::NotNamespaceWellFormed(NWFError::UndeclaredNamesacePrefix(ERRCTX_ATTNAME));
    let b = vec![name("b"), Token::Eq, value("1")];
    let xb = vec![name("x:b"), Token::Eq, value("1")];

    let mut tokens: Vec<Token> = vec![head("a")];
    tokens.extend(b.clone());
    tokens.extend(b.clone());
    tokens.extend(xb.clone());
    tokens.push(Token::ElementHFEnd);
    assert_eq!(error_of(tokens), duplicate);

    let mut tokens: Vec<Token> = vec![head("a")];
    tokens.extend(b.clone());
    tokens.extend(xb.clone());
    tokens.extend(b.clone());
    tokens.push(Token::ElementHFEnd);
    assert_eq!(error_of(tokens), undeclared);
}

#[test]
fn duplicate_declarations() {
    let duplicate = Error::NotWellFormed(WFError::DuplicateAttribute);
    let x = vec![name("xmlns:x"), Token::Eq, value("u")];
    let default = vec![name("xmlns"), Token::Eq, value("u")];

    let mut tokens: Vec<Token> = vec![head("a")];
    tokens.extend(x.clone());
    tokens.extend(x.clone());
    assert_eq!(error_of(tokens), duplicate);

    let mut tokens: Vec<Token> = vec![head("a")];
    tokens.extend(default.clone());
    tokens.extend(default.clone());
    assert_eq!(error_of(tokens), duplicate);
}

#[test]
fn errors_of_the_reader_are_handed_on() {
    let failure = Error::RestrictedXml("comments are not allowed");
    let mut reader = Replay::new(vec![head("a")]);
    reader.reads.push(Err(failure.clone()));
    let mut parser = Parser::new();
    let (events, result) = parse_with(&mut parser, &mut reader);
    assert_eq!(events.len(), 0);
    assert_eq!(result.err().unwrap(), failure);
}

#[test]
fn parser_is_silent_after_an_error() {
    let mut reader = Replay::new(vec![
        head("a"),
        Token::ElementHFEnd,
        foot("b"),
        Token::ElementHFEnd,
        head("c"),
        Token::ElementHeadClose,
    ]);
    let mut parser = Parser::new();
    let (events, result) = parse_with(&mut parser, &mut reader);
    assert_eq!(events.len(), 1);
    assert_eq!(result.err().unwrap(), Error::NotWellFormed(WFError::ElementMismatch));
    assert_eq!(reader.count, 3);
    assert_eq!(parser.parse(&mut reader).unwrap(), None);
    assert_eq!(parser.parse(&mut reader).unwrap(), None);
    assert_eq!(reader.count, 3);
}

#[test]
fn parser_is_silent_after_the_document() {
    let mut reader = Replay::new(vec![head("a"), Token::ElementHeadClose, head("b")]);
    let mut parser = Parser::new();
    let (events, result) = parse_with(&mut parser, &mut reader);
    result.unwrap();
    assert_eq!(events.len(), 2);
    assert_eq!(reader.count, 2);
    assert_eq!(parser.parse(&mut reader).unwrap(), None);
    assert_eq!(reader.count, 2);
}

#[test]
fn parser_reads_no_further_than_it_has_to() {
    let mut reader = Replay::new(vec![
        head("a"),
        Token::ElementHFEnd,
        Token::Text("x".to_string()),
        foot("a"),
        Token::ElementHFEnd,
    ]);
    let mut parser = Parser::new();
    assert!(matches!(parser.parse(&mut reader).unwrap().unwrap(), Event::StartElement(_, _)));
    assert_eq!(reader.count, 2);
    assert_eq!(parser.parse(&mut reader).unwrap().unwrap(), Event::Text("x".to_string()));
    assert_eq!(reader.count, 3);
    assert_eq!(parser.parse(&mut reader).unwrap().unwrap(), Event::EndElement);
    assert_eq!(reader.count, 5);
    assert_eq!(parser.parse(&mut reader).unwrap(), None);
    assert_eq!(reader.count, 5);
}

#[test]
fn tokens_can_be_fed_one_by_one() {
    let mut parser = Parser::new();
    parser.feed(Ok(Some(head("a")))).unwrap();
    parser.feed(Ok(Some(Token::ElementHFEnd))).unwrap();
    assert_eq!(
        parser.feed(Ok(Some(foot("b")))).err().unwrap(),
        Error::NotWellFormed(WFError::ElementMismatch)
    );
    parser.feed(Ok(Some(head("c")))).unwrap();
    let mut reader = Replay::new(vec![]);
    assert!(matches!(parser.parse(&mut reader).unwrap().unwrap(), Event::StartElement(_, _)));
    assert_eq!(parser.parse(&mut reader).unwrap(), None);
    assert_eq!(reader.count, 0);
}
