use rxml::attributes::AttributeMap;
use rxml::error::{Error, NWFError, WFError, ERRCTX_ELEMENT};
use rxml::lexer::{CodepointRead, Lexer, Token};
use rxml::parser::{Event, LexerAdapter, Parser, TokenRead, XML_NAMESPACE};
use rxml::text::{eq_ignore_ascii_case, same_text};

struct Tokens(Vec<Token>);

impl TokenRead for Tokens {
    fn read(&mut self) -> Result<Option<Token>, Error> {
        if self.0.is_empty() {
            Ok(None)
        } else {
            Ok(Some(self.0.remove(0)))
        }
    }
}

fn parse(tokens: Vec<Token>) -> (Vec<Event>, Result<(), Error>) {
    let mut reader = Tokens(tokens);
    let mut parser = Parser::new();
    let mut events: Vec<Event> = Vec::new();
    loop {
        match parser.parse(&mut reader) {
            Ok(Some(event)) => events.push(event),
            Ok(None) => return (events, Ok(())),
            Err(e) => return (events, Err(e)),
        }
    }
}

fn head(name: &str) -> Token {
    Token::ElementHeadStart(name.to_string())
}

fn foot(name: &str) -> Token {
    Token::ElementFootStart(name.to_string())
}

fn attribute(name: &str, value: &str) -> Vec<Token> {
    vec![
        Token::Name(name.to_string()),
        Token::Eq,
        Token::AttributeValue(value.to_string()),
    ]
}

fn document(parts: Vec<Vec<Token>>) -> Vec<Token> {
    let mut tokens: Vec<Token> = Vec::new();
    for part in parts {
        tokens.extend(part);
    }
    tokens
}

fn qname(uri: Option<&str>, local: &str) -> (Option<String>, String) {
    (uri.map(|uri| uri.to_string()), local.to_string())
}

fn element_name(event: &Event) -> (Option<String>, String) {
    match event {
        Event::StartElement(name, _) => name.clone(),
        other => panic!("not the start of an element: {:?}", other),
    }
}

#[test]
fn empty_element_tag_says_the_same_as_two_tags() {
    let attributes = document(vec![attribute("xmlns:x", "u"), attribute("x:b", "1")]);
    let short = document(vec![vec![head("x:a")], attributes.clone(), vec![Token::ElementHeadClose]]);
    let long = document(vec![
        vec![head("x:a")],
        attributes,
        vec![Token::ElementHFEnd, foot("x:a"), Token::ElementHFEnd],
    ]);
    let (short_events, short_result) = parse(short);
    let (long_events, long_result) = parse(long);
    short_result.unwrap();
    long_result.unwrap();
    assert_eq!(short_events, long_events);
    assert_eq!(short_events.len(), 2);
}

#[test]
fn declarations_count_for_the_whole_head() {
    let (before, r) = parse(document(vec![
        vec![head("x:a")],
        attribute("xmlns:x", "u"),
        attribute("x:b", "1"),
        vec![Token::ElementHeadClose],
    ]));
    r.unwrap();
    let (after, r) = parse(document(vec![
        vec![head("x:a")],
        attribute("x:b", "1"),
        attribute("xmlns:x", "u"),
        vec![Token::ElementHeadClose],
    ]));
    r.unwrap();
    assert_eq!(before, after);
    match &before[0] {
        Event::StartElement(name, attributes) => {
            assert_eq!(*name, qname(Some("u"), "a"));
            assert_eq!(attributes.get(&qname(Some("u"), "b")).unwrap(), "1");
        }
        other => panic!("unexpected event: {:?}", other),
    }
}

#[test]
fn order_of_attributes_does_not_matter() {
    let parts = vec![
        attribute("xmlns", "d"),
        attribute("xmlns:x", "u"),
        attribute("x:b", "1"),
        attribute("b", "2"),
    ];
    let orders: [[usize; 4]; 5] =
        [[0, 1, 2, 3], [3, 2, 1, 0], [2, 0, 3, 1], [1, 3, 0, 2], [2, 3, 1, 0]];
    for order in orders {
        let mut tokens: Vec<Token> = vec![head("a")];
        for i in order {
            tokens.extend(parts[i].clone());
        }
        tokens.push(Token::ElementHeadClose);
        let (events, r) = parse(tokens);
        r.unwrap();
        assert_eq!(events.len(), 2);
        match &events[0] {
            Event::StartElement(name, attributes) => {
                assert_eq!(*name, qname(Some("d"), "a"));
                assert_eq!(attributes.len(), 2);
                assert_eq!(attributes.get(&qname(Some("u"), "b")).unwrap(), "1");
                assert_eq!(attributes.get(&qname(None, "b")).unwrap(), "2");
            }
            other => panic!("unexpected event: {:?}", other),
        }
    }
}

#[test]
fn declaration_goes_part_by_part() {
    let parts: Vec<Token> = document(vec![
        vec![Token::XMLDeclStart],
        attribute("version", "1.0"),
        attribute("encoding", "utf-8"),
        attribute("standalone", "yes"),
    ]);
    // The declaration can end after a whole attribute, and nowhere else.
    for n in 1..parts.len() + 1 {
        let mut tokens: Vec<Token> = parts[..n].to_vec();
        tokens.push(Token::XMLDeclEnd);
        tokens.extend(vec![head("a"), Token::ElementHeadClose]);
        let (events, r) = parse(tokens);
        if n == 4 || n == 7 || n == 10 {
            r.unwrap();
            assert_eq!(events[0], Event::XMLDeclaration("1.0".to_string()));
        } else {
            assert!(matches!(
                r.err().unwrap(),
                Error::NotWellFormed(WFError::UnexpectedToken(_, _, None))
            ));
            assert_eq!(events.len(), 0);
        }
    }
    // No part of it can be left out or come twice.
    for n in 1..parts.len() - 1 {
        let mut shorter: Vec<Token> = parts.clone();
        shorter.remove(n);
        assert!(parse(shorter).1.is_err());
        let mut longer: Vec<Token> = parts.clone();
        longer.insert(n, parts[n].clone());
        assert!(parse(longer).1.is_err());
    }
}

#[test]
fn declarations_end_with_their_element() {
    let (events, r) = parse(document(vec![
        vec![head("a"), Token::ElementHFEnd, head("x:b")],
        attribute("xmlns:x", "u"),
        vec![Token::ElementHeadClose, head("x:c"), Token::ElementHeadClose],
    ]));
    assert_eq!(
        r.err().unwrap(),
        Error::NotNamespaceWellFormed(NWFError::UndeclaredNamesacePrefix(ERRCTX_ELEMENT))
    );
    assert_eq!(events.len(), 3);
}

#[test]
fn outer_declarations_are_back_after_an_element() {
    let (events, r) = parse(document(vec![
        vec![head("a")],
        attribute("xmlns", "outer"),
        vec![Token::ElementHFEnd, head("b")],
        attribute("xmlns", "inner"),
        vec![Token::ElementHFEnd, head("c"), Token::ElementHeadClose],
        vec![foot("b"), Token::ElementHFEnd, head("d"), Token::ElementHeadClose],
        vec![foot("a"), Token::ElementHFEnd],
    ]));
    r.unwrap();
    assert_eq!(element_name(&events[0]), qname(Some("outer"), "a"));
    assert_eq!(element_name(&events[1]), qname(Some("inner"), "b"));
    assert_eq!(element_name(&events[2]), qname(Some("inner"), "c"));
    assert_eq!(element_name(&events[5]), qname(Some("outer"), "d"));
    assert_eq!(events.len(), 8);
}

#[test]
fn default_namespace_can_be_declared_empty() {
    let (events, r) = parse(document(vec![
        vec![head("a")],
        attribute("xmlns", ""),
        vec![Token::ElementHeadClose],
    ]));
    r.unwrap();
    assert_eq!(element_name(&events[0]), qname(Some(""), "a"));
}

#[test]
fn xml_can_be_declared_as_what_it_is_more_than_once() {
    let (events, r) = parse(document(vec![
        vec![head("xml:a")],
        attribute("xmlns:xml", XML_NAMESPACE),
        attribute("xmlns:xml", XML_NAMESPACE),
        vec![Token::ElementHeadClose],
    ]));
    r.unwrap();
    assert_eq!(element_name(&events[0]), qname(Some(XML_NAMESPACE), "a"));
}

#[test]
fn end_tag_must_be_written_like_the_start_tag() {
    let (_, r) = parse(document(vec![
        vec![head("x:a")],
        attribute("xmlns:x", "u"),
        attribute("xmlns:y", "u"),
        vec![Token::ElementHFEnd, foot("y:a"), Token::ElementHFEnd],
    ]));
    assert_eq!(r.err().unwrap(), Error::NotWellFormed(WFError::ElementMismatch));
}

#[test]
fn events_are_nested() {
    let (events, r) = parse(vec![
        head("a"),
        Token::ElementHFEnd,
        Token::Text("1".to_string()),
        head("b"),
        Token::ElementHeadClose,
        head("c"),
        Token::ElementHFEnd,
        Token::Text("2".to_string()),
        foot("c"),
        Token::ElementHFEnd,
        foot("a"),
        Token::ElementHFEnd,
    ]);
    r.unwrap();
    let mut depth: i32 = 0;
    for event in &events {
        match event {
            Event::StartElement(_, _) => depth += 1,
            Event::EndElement => depth -= 1,
            Event::Text(_) => assert!(depth > 0),
            Event::XMLDeclaration(_) => panic!("there is no declaration"),
        }
        assert!(depth >= 0);
    }
    assert_eq!(depth, 0);
    assert_eq!(events.len(), 8);
}

#[test]
fn texts_are_told_as_read() {
    let texts = ["", "a", "  ", "a", "é€𝄞 <&>"];
    let mut tokens: Vec<Token> = vec![head("r"), Token::ElementHFEnd];
    for text in texts {
        tokens.push(Token::Text(text.to_string()));
        tokens.extend(vec![head("e"), Token::ElementHeadClose]);
    }
    tokens.extend(vec![foot("r"), Token::ElementHFEnd]);
    let (events, r) = parse(tokens);
    r.unwrap();
    let mut told: Vec<String> = Vec::new();
    for event in events {
        if let Event::Text(text) = event {
            told.push(text);
        }
    }
    assert_eq!(told, texts);
}

#[test]
fn second_declaration_of_a_prefix_is_an_error_whatever_its_uri() {
    for uri in ["u", "v"] {
        let (events, r) = parse(document(vec![
            vec![head("x:a")],
            attribute("xmlns:x", "u"),
            attribute("xmlns:x", uri),
            vec![Token::ElementHeadClose],
        ]));
        assert_eq!(r.err().unwrap(), Error::NotWellFormed(WFError::DuplicateAttribute));
        assert_eq!(events.len(), 0);
    }
}

#[test]
fn attribute_map_keeps_one_value_for_a_name() {
    let mut map = AttributeMap::new();
    assert_eq!(map.len(), 0);
    assert!(map.get(&qname(None, "a")).is_none());
    assert!(map.insert(qname(None, "a"), "1".to_string()));
    assert!(map.insert(qname(Some("u"), "a"), "2".to_string()));
    assert!(map.insert(qname(Some(""), "a"), "3".to_string()));
    assert!(!map.insert(qname(None, "a"), "4".to_string()));
    assert_eq!(map.len(), 3);
    assert_eq!(map.get(&qname(None, "a")).unwrap(), "1");
    assert_eq!(map.get(&qname(Some("u"), "a")).unwrap(), "2");
    assert_eq!(map.get(&qname(Some(""), "a")).unwrap(), "3");
    assert!(map.get(&qname(Some("u"), "b")).is_none());
    assert_eq!(map.entries().len(), 3);
    assert!(map.entries().contains(&(qname(Some("u"), "a"), "2".to_string())));
}

#[test]
fn attribute_maps_are_equal_in_any_order() {
    let mut one = AttributeMap::new();
    one.insert(qname(None, "a"), "1".to_string());
    one.insert(qname(None, "b"), "2".to_string());
    let mut other = AttributeMap::new();
    other.insert(qname(None, "b"), "2".to_string());
    assert!(one != other);
    other.insert(qname(None, "a"), "1".to_string());
    assert_eq!(one, other);
    assert_eq!(one.clone(), other);
    let mut third = AttributeMap::new();
    third.insert(qname(None, "a"), "1".to_string());
    third.insert(qname(None, "b"), "3".to_string());
    assert!(one != third);
}

#[test]
fn events_and_tokens_are_copied_whole() {
    let mut map = AttributeMap::new();
    map.insert(qname(Some("u"), "a"), "1".to_string());
    for event in [
        Event::XMLDeclaration("1.0".to_string()),
        Event::StartElement(qname(None, "a"), map),
        Event::EndElement,
        Event::Text("x".to_string()),
    ] {
        assert_eq!(event.clone(), event);
    }
    for token in [head("a"), foot("a"), Token::Eq, Token::Text("x".to_string())] {
        assert_eq!(token.clone(), token);
    }
}

#[test]
fn strings_are_compared() {
    assert!(same_text("", ""));
    assert!(same_text("é€𝄞", "é€𝄞"));
    assert!(!same_text("abc", "abd"));
    assert!(!same_text("abc", "ab"));
    assert!(eq_ignore_ascii_case("Utf-8", "uTF-8"));
    assert!(eq_ignore_ascii_case("", ""));
    assert!(!eq_ignore_ascii_case("utf-8", "utf-"));
    assert!(!eq_ignore_ascii_case("utf-", "utf-8"));
    assert!(!eq_ignore_ascii_case("É", "é"));
    assert!(!eq_ignore_ascii_case("[", "{"));
    assert!(!eq_ignore_ascii_case("@", "`"));
    assert!(eq_ignore_ascii_case("AZ", "az"));
}

struct Characters(Vec<char>);

impl CodepointRead for Characters {
    fn read(&mut self) -> Result<Option<char>, Error> {
        if self.0.is_empty() {
            Ok(None)
        } else {
            Ok(Some(self.0.remove(0)))
        }
    }
}

/// Takes every character for a tag of one letter: upper case opens, lower case closes.
struct LetterLexer {
    pending: Vec<Token>,
}

impl Lexer for LetterLexer {
    fn lex<R: CodepointRead>(&mut self, src: &mut R) -> Result<Option<Token>, Error> {
        if !self.pending.is_empty() {
            return Ok(Some(self.pending.remove(0)));
        }
        match src.read()? {
            None => Ok(None),
            Some(c) => {
                self.pending.push(Token::ElementHFEnd);
                let name: String = c.to_ascii_lowercase().to_string();
                if c.is_ascii_uppercase() {
                    Ok(Some(Token::ElementHeadStart(name)))
                } else {
                    Ok(Some(Token::ElementFootStart(name)))
                }
            }
        }
    }
}

#[test]
fn lexer_adapter_reads_what_the_lexer_finds() {
    let mut lexer = LetterLexer { pending: vec![] };
    let mut src = Characters(vec!['A', 'B', 'b', 'a', 'X']);
    let mut events: Vec<Event> = Vec::new();
    {
        let mut adapter = LexerAdapter::new(&mut lexer, &mut src);
        let mut parser = Parser::new();
        while let Some(event) = parser.parse(&mut adapter).unwrap() {
            events.push(event);
        }
    }
    assert_eq!(events.len(), 4);
    assert_eq!(element_name(&events[0]), qname(None, "a"));
    assert_eq!(element_name(&events[1]), qname(None, "b"));
    assert_eq!(events[2], Event::EndElement);
    assert_eq!(events[3], Event::EndElement);
    assert_eq!(src.0, vec!['X']);
    assert!(lexer.pending.is_empty());
}

#[test]
fn lexer_adapter_continues_where_the_lexer_stands() {
    let mut lexer = LetterLexer { pending: vec![] };
    let mut src = Characters(vec!['A']);
    assert_eq!(LexerAdapter::new(&mut lexer, &mut src).read().unwrap().unwrap(), head("a"));
    let mut adapter = LexerAdapter::new(&mut lexer, &mut src);
    assert_eq!(adapter.read().unwrap().unwrap(), Token::ElementHFEnd);
    assert!(adapter.read().unwrap().is_none());
}
