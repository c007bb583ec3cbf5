use rxml::error::{Error, NWFError, WFError, ERRCTX_DOCBEGIN};
use rxml::event::Event;
use rxml::lexer::Token;
use rxml::parser::{Parser, TokenRead};

const TEST_NS: &'static str = "urn:uuid:4e1c8b65-ae37-49f8-a250-c27d52827da9";
const TEST_NS2: &'static str = "urn:uuid:678ba034-6200-4ecd-803f-bbcbfa225236";

struct TokenSliceReader<'x>{
    base: &'x [Token],
    offset: usize,
}

impl TokenSliceReader<'_> {
    fn new<'x>(src: &'x [Token]) -> TokenSliceReader<'x> {
        TokenSliceReader{
            base: src,
            offset: 0,
        }
    }
}

impl<'x> TokenRead for TokenSliceReader<'x> {
    fn read(&mut self) -> Result<Option<Token>, Error> {
        match self.base.get(self.offset) {
            Some(x) => {
                self.offset += 1;
                let result = x.clone();
                println!("returning token {:?}", result);
                Ok(Some(result))
            },
            None => Ok(None),
        }
    }
}

fn parse(src: &[Token]) -> (Vec<Event>, Result<(), Error>) {
    let mut sink = Vec::<Event>::new();
    let mut reader = TokenSliceReader::new(src);
    let mut parser = Parser::new();
    loop {
        match parser.parse(&mut reader) {
            Ok(Some(ev)) => sink.push(ev),
            Ok(None) => return (sink, Ok(())),
            Err(e) => return (sink, Err(e)),
        }
    }
}

#[test]
fn parser_parse_xml_declaration() {
    let (evs, r) = parse(&[
        Token::XMLDeclStart,
        Token::Name("version".to_string()),
        Token::Eq,
        Token::AttributeValue("1.0".to_string()),
        Token::XMLDeclEnd,
    ]);
    assert!(matches!(&evs[0], Event::XMLDeclaration(v) if v == "1.0"));
    assert_eq!(evs.len(), 1);
    assert!(matches!(r.err().unwrap(), Error::NotWellFormed(WFError::InvalidEof(ERRCTX_DOCBEGIN))));
}

#[test]
fn parser_parse_element_after_xml_declaration() {
    let (evs, r) = parse(&[
        Token::XMLDeclStart,
        Token::Name("version".to_string()),
        Token::Eq,
        Token::AttributeValue("1.0".to_string()),
        Token::XMLDeclEnd,
        Token::ElementHeadStart("root".to_string()),
        Token::ElementHeadClose,
    ]);
    r.unwrap();
    assert!(matches!(&evs[1], Event::StartElement((nsuri, localname), _attrs) if nsuri.is_none() && localname == "root"));
    assert!(matches!(&evs[2], Event::EndElement));
}

#[test]
fn parser_parse_element_without_decl() {
    let (evs, r) = parse(&[
        Token::ElementHeadStart("root".to_string()),
        Token::ElementHeadClose,
    ]);
    r.unwrap();
    assert!(matches!(&evs[0], Event::StartElement((nsuri, localname), _attrs) if nsuri.is_none() && localname == "root"));
    assert!(matches!(&evs[1], Event::EndElement));
}

#[test]
fn parser_parse_element_with_attr() {
    let (evs, r) = parse(&[
        Token::ElementHeadStart("root".to_string()),
        Token::Name("foo".to_string()),
        Token::Eq,
        Token::AttributeValue("bar".to_string()),
        Token::ElementHeadClose,
    ]);
    r.unwrap();
    match &evs[0] {
        Event::StartElement((nsuri, localname), attrs) => {
            assert_eq!(localname, "root");
            assert!(nsuri.is_none());
            assert_eq!(attrs.get(&(None, "foo".to_string())).unwrap(), "bar");
        },
        ev => panic!("unexpected event: {:?}", ev),
    }
    assert!(matches!(&evs[1], Event::EndElement));
}

#[test]
fn parser_parse_element_with_xmlns() {
    let (evs, r) = parse(&[
        Token::ElementHeadStart("root".to_string()),
        Token::Name("xmlns".to_string()),
        Token::Eq,
        Token::AttributeValue(TEST_NS.to_string()),
        Token::ElementHeadClose,
    ]);
    r.unwrap();
    match &evs[0] {
        Event::StartElement((nsuri, localname), attrs) => {
            assert_eq!(localname, "root");
            assert_eq!(attrs.len(), 0);
            assert_eq!(*nsuri.as_ref().unwrap(), TEST_NS);
        },
        ev => panic!("unexpected event: {:?}", ev),
    }
    assert!(matches!(&evs[1], Event::EndElement));
}

#[test]
fn parser_parse_attribute_without_namespace_prefix() {
    let (evs, r) = parse(&[
        Token::ElementHeadStart("root".to_string()),
        Token::Name("xmlns".to_string()),
        Token::Eq,
        Token::AttributeValue(TEST_NS.to_string()),
        Token::Name("foo".to_string()),
        Token::Eq,
        Token::AttributeValue("bar".to_string()),
        Token::ElementHeadClose,
    ]);
    r.unwrap();
    match &evs[0] {
        Event::StartElement((nsuri, localname), attrs) => {
            assert_eq!(localname, "root");
            assert_eq!(attrs.get(&(None, "foo".to_string())).unwrap(), "bar");
            assert_eq!(*nsuri.as_ref().unwrap(), TEST_NS);
        },
        ev => panic!("unexpected event: {:?}", ev),
    }
    assert!(matches!(&evs[1], Event::EndElement));
}

#[test]
fn parser_parse_attribute_with_namespace_prefix() {
    let (evs, r) = parse(&[
        Token::ElementHeadStart("root".to_string()),
        Token::Name("xmlns:foo".to_string()),
        Token::Eq,
        Token::AttributeValue(TEST_NS.to_string()),
        Token::Name("foo:bar".to_string()),
        Token::Eq,
        Token::AttributeValue("baz".to_string()),
        Token::ElementHeadClose,
    ]);
    r.unwrap();
    match &evs[0] {
        Event::StartElement((nsuri, localname), attrs) => {
            assert_eq!(localname, "root");
            assert_eq!(attrs.get(&(Some(TEST_NS.to_string()), "bar".to_string())).unwrap(), "baz");
            assert!(nsuri.is_none());
        },
        ev => panic!("unexpected event: {:?}", ev),
    }
    assert!(matches!(&evs[1], Event::EndElement));
}

#[test]
fn parser_parse_xml_prefix_without_declaration() {
    let (evs, r) = parse(&[
        Token::ElementHeadStart("root".to_string()),
        Token::Name("xml:lang".to_string()),
        Token::Eq,
        Token::AttributeValue("en".to_string()),
        Token::ElementHeadClose,
    ]);
    r.unwrap();
    match &evs[0] {
        Event::StartElement((nsuri, localname), attrs) => {
            assert_eq!(localname, "root");
            assert_eq!(attrs.get(&(Some("http://www.w3.org/XML/1998/namespace".to_string()), "lang".to_string())).unwrap(), "en");
            assert!(nsuri.is_none());
        },
        ev => panic!("unexpected event: {:?}", ev),
    }
    assert!(matches!(&evs[1], Event::EndElement));
}

#[test]
fn parser_parse_reject_reserved_xmlns_prefix() {
    let (evs, r) = parse(&[
        Token::ElementHeadStart("root".to_string()),
        Token::Name("xmlns:xmlns".to_string()),
        Token::Eq,
        Token::AttributeValue(TEST_NS.to_string()),
        Token::Name("foo:bar".to_string()),
        Token::Eq,
        Token::AttributeValue("baz".to_string()),
        Token::ElementHeadClose,
    ]);
    assert!(matches!(r.err().unwrap(), Error::NotNamespaceWellFormed(NWFError::ReservedNamespacePrefix)));
    assert_eq!(evs.len(), 0);
}

#[test]
fn parser_parse_allow_xml_redeclaration() {
    let (evs, r) = parse(&[
        Token::ElementHeadStart("root".to_string()),
        Token::Name("xmlns:xml".to_string()),
        Token::Eq,
        Token::AttributeValue("http://www.w3.org/XML/1998/namespace".to_string()),
        Token::ElementHeadClose,
    ]);
    r.unwrap();
    assert_eq!(evs.len(), 2);
}

#[test]
fn parser_parse_reject_reserved_xml_prefix_with_incorrect_value() {
    let (evs, r) = parse(&[
        Token::ElementHeadStart("root".to_string()),
        Token::Name("xmlns:xml".to_string()),
        Token::Eq,
        Token::AttributeValue(TEST_NS.to_string()),
        Token::Name("foo:bar".to_string()),
        Token::Eq,
        Token::AttributeValue("baz".to_string()),
        Token::ElementHeadClose,
    ]);
    assert!(matches!(r.err().unwrap(), Error::NotNamespaceWellFormed(NWFError::ReservedNamespacePrefix)));
    assert_eq!(evs.len(), 0);
}

#[test]
fn parser_parse_nested_elements() {
    let (evs, r) = parse(&[
        Token::ElementHeadStart("root".to_string()),
        Token::ElementHFEnd,
        Token::ElementHeadStart("child".to_string()),
        Token::ElementHFEnd,
        Token::ElementFootStart("child".to_string()),
        Token::ElementHFEnd,
        Token::ElementFootStart("root".to_string()),
        Token::ElementHFEnd,
    ]);
    r.unwrap();
    let mut iter = evs.iter();
    assert!(matches!(iter.next().unwrap(), Event::StartElement((nsuri, localname), _attrs) if nsuri.is_none() && localname == "root"));
    assert!(matches!(iter.next().unwrap(), Event::StartElement((nsuri, localname), _attrs) if nsuri.is_none() && localname == "child"));
    assert!(matches!(iter.next().unwrap(), Event::EndElement));
    assert!(matches!(iter.next().unwrap(), Event::EndElement));
}

#[test]
fn parser_parse_mixed_content() {
    let (evs, r) = parse(&[
        Token::ElementHeadStart("root".to_string()),
        Token::ElementHFEnd,
        Token::Text("Hello".to_string()),
        Token::ElementHeadStart("child".to_string()),
        Token::ElementHFEnd,
        Token::Text("mixed".to_string()),
        Token::ElementFootStart("child".to_string()),
        Token::ElementHFEnd,
        Token::Text("world!".to_string()),
        Token::ElementFootStart("root".to_string()),
        Token::ElementHFEnd,
    ]);
    r.unwrap();
    let mut iter = evs.iter();
    assert!(matches!(iter.next().unwrap(), Event::StartElement((nsuri, localname), _attrs) if nsuri.is_none() && localname == "root"));
    assert!(matches!(iter.next().unwrap(), Event::Text(t) if t == "Hello"));
    assert!(matches!(iter.next().unwrap(), Event::StartElement((nsuri, localname), _attrs) if nsuri.is_none() && localname == "child"));
    assert!(matches!(iter.next().unwrap(), Event::Text(t) if t == "mixed"));
    assert!(matches!(iter.next().unwrap(), Event::EndElement));
    assert!(matches!(iter.next().unwrap(), Event::Text(t) if t == "world!"));
    assert!(matches!(iter.next().unwrap(), Event::EndElement));
}

#[test]
fn parser_reject_mismested_elements() {
    let (evs, r) = parse(&[
        Token::ElementHeadStart("root".to_string()),
        Token::ElementHFEnd,
        Token::ElementHeadStart("child".to_string()),
        Token::ElementHFEnd,
        Token::ElementFootStart("nonchild".to_string()),
        Token::ElementHFEnd,
        Token::ElementFootStart("root".to_string()),
        Token::ElementHFEnd,
    ]);
    assert!(matches!(r.err().unwrap(), Error::NotWellFormed(WFError::ElementMismatch)));
    let mut iter = evs.iter();
    assert!(matches!(iter.next().unwrap(), Event::StartElement((nsuri, localname), _attrs) if nsuri.is_none() && localname == "root"));
    assert!(matches!(iter.next().unwrap(), Event::StartElement((nsuri, localname), _attrs) if nsuri.is_none() && localname == "child"));
    assert!(iter.next().is_none());
}

#[test]
fn parser_parse_prefixed_elements() {
    let (evs, r) = parse(&[
        Token::ElementHeadStart("x:root".to_string()),
        Token::Name("foo".to_string()),
        Token::Eq,
        Token::AttributeValue("bar".to_string()),
        Token::Name("xmlns:x".to_string()),
        Token::Eq,
        Token::AttributeValue(TEST_NS.to_string()),
        Token::ElementHFEnd,
        Token::ElementHeadStart("child".to_string()),
        Token::ElementHFEnd,
        Token::ElementFootStart("child".to_string()),
        Token::ElementHFEnd,
        Token::ElementFootStart("x:root".to_string()),
        Token::ElementHFEnd,
    ]);
    r.unwrap();
    let mut iter = evs.iter();
    match iter.next().unwrap() {
        Event::StartElement((nsuri, localname), attrs) => {
            assert_eq!(*nsuri.as_ref().unwrap(), TEST_NS);
            assert_eq!(localname, "root");
            assert_eq!(attrs.get(&(None, "foo".to_string())).unwrap(), "bar");
        },
        ev => panic!("unexpected event: {:?}", ev),
    }
    assert!(matches!(iter.next().unwrap(), Event::StartElement((nsuri, localname), _attrs) if nsuri.is_none() && localname == "child"));
    assert!(matches!(iter.next().unwrap(), Event::EndElement));
    assert!(matches!(iter.next().unwrap(), Event::EndElement));
}

#[test]
fn parser_parse_nested_prefixed_elements() {
    let (evs, r) = parse(&[
        Token::ElementHeadStart("x:root".to_string()),
        Token::Name("foo".to_string()),
        Token::Eq,
        Token::AttributeValue("bar".to_string()),
        Token::Name("xmlns:x".to_string()),
        Token::Eq,
        Token::AttributeValue(TEST_NS.to_string()),
        Token::ElementHFEnd,
        Token::ElementHeadStart("x:child".to_string()),
        Token::ElementHFEnd,
        Token::ElementFootStart("x:child".to_string()),
        Token::ElementHFEnd,
        Token::ElementFootStart("x:root".to_string()),
        Token::ElementHFEnd,
    ]);
    r.unwrap();
    let mut iter = evs.iter();
    match iter.next().unwrap() {
        Event::StartElement((nsuri, localname), attrs) => {
            assert_eq!(*nsuri.as_ref().unwrap(), TEST_NS);
            assert_eq!(localname, "root");
            assert_eq!(attrs.get(&(None, "foo".to_string())).unwrap(), "bar");
        },
        ev => panic!("unexpected event: {:?}", ev),
    }
    assert!(matches!(iter.next().unwrap(), Event::StartElement((nsuri, localname), _attrs) if nsuri.as_ref().unwrap() == TEST_NS && localname == "child"));
    assert!(matches!(iter.next().unwrap(), Event::EndElement));
    assert!(matches!(iter.next().unwrap(), Event::EndElement));
}

#[test]
fn parser_parse_overriding_prefix_decls() {
    let (evs, r) = parse(&[
        Token::ElementHeadStart("x:root".to_string()),
        Token::Name("xmlns:x".to_string()),
        Token::Eq,
        Token::AttributeValue(TEST_NS.to_string()),
        Token::ElementHFEnd,
        Token::ElementHeadStart("x:child".to_string()),
        Token::Name("xmlns:x".to_string()),
        Token::Eq,
        Token::AttributeValue(TEST_NS2.to_string()),
        Token::ElementHFEnd,
        Token::ElementFootStart("x:child".to_string()),
        Token::ElementHFEnd,
        Token::ElementFootStart("x:root".to_string()),
        Token::ElementHFEnd,
    ]);
    r.unwrap();
    let mut iter = evs.iter();
    assert!(matches!(iter.next().unwrap(), Event::StartElement((nsuri, localname), _attrs) if nsuri.as_ref().unwrap() == TEST_NS && localname == "root"));
    assert!(matches!(iter.next().unwrap(), Event::StartElement((nsuri, localname), _attrs) if nsuri.as_ref().unwrap() == TEST_NS2 && localname == "child"));
    assert!(matches!(iter.next().unwrap(), Event::EndElement));
    assert!(matches!(iter.next().unwrap(), Event::EndElement));
}

#[test]
fn parser_parse_multiple_prefixes() {
    let (evs, r) = parse(&[
        Token::ElementHeadStart("x:root".to_string()),
        Token::Name("xmlns:x".to_string()),
        Token::Eq,
        Token::AttributeValue(TEST_NS.to_string()),
        Token::Name("xmlns:y".to_string()),
        Token::Eq,
        Token::AttributeValue(TEST_NS2.to_string()),
        Token::ElementHFEnd,
        Token::ElementHeadStart("y:child".to_string()),
        Token::ElementHFEnd,
        Token::ElementFootStart("y:child".to_string()),
        Token::ElementHFEnd,
        Token::ElementFootStart("x:root".to_string()),
        Token::ElementHFEnd,
    ]);
    r.unwrap();
    let mut iter = evs.iter();
    assert!(matches!(iter.next().unwrap(), Event::StartElement((nsuri, localname), _attrs) if nsuri.as_ref().unwrap() == TEST_NS && localname == "root"));
    assert!(matches!(iter.next().unwrap(), Event::StartElement((nsuri, localname), _attrs) if nsuri.as_ref().unwrap() == TEST_NS2 && localname == "child"));
    assert!(matches!(iter.next().unwrap(), Event::EndElement));
    assert!(matches!(iter.next().unwrap(), Event::EndElement));
}

#[test]
fn parser_parse_reject_duplicate_attribute_post_ns_expansion() {
    let (evs, r) = parse(&[
        Token::ElementHeadStart("x:root".to_string()),
        Token::Name("xmlns:x".to_string()),
        Token::Eq,
        Token::AttributeValue(TEST_NS.to_string()),
        Token::Name("xmlns:y".to_string()),
        Token::Eq,
        Token::AttributeValue(TEST_NS.to_string()),
        Token::Name("x:a".to_string()),
        Token::Eq,
        Token::AttributeValue("foo".to_string()),
        Token::Name("y:a".to_string()),
        Token::Eq,
        Token::AttributeValue("foo".to_string()),
        Token::ElementHFEnd,
        Token::ElementFootStart("x:root".to_string()),
        Token::ElementHFEnd,
    ]);
    assert!(matches!(r.err().unwrap(), Error::NotWellFormed(WFError::DuplicateAttribute)));
    assert_eq!(evs.len(), 0);
}
