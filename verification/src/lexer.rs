//! The tokens that a document is made of, and the interface of what produces them.

use vstd::prelude::*;

use crate::error::{Error, ErrorView};

verus! {

/// The smallest unit of a document that the parser looks at.
#[derive(PartialEq, Debug)]
pub enum Token {
    /// `<?xml`
    XMLDeclStart,
    /// `<` and the name of an element
    ElementHeadStart(String),
    /// `/>`
    ElementHeadClose,
    /// `>`
    ElementHFEnd,
    /// `</` and the name of an element
    ElementFootStart(String),
    /// `?>`
    XMLDeclEnd,
    /// The name of an attribute
    Name(String),
    /// `=`
    Eq,
    /// The value of an attribute, without its quotes
    AttributeValue(String),
    /// Character data
    Text(String),
}

/// A [`Token`] as a mathematical value.
pub enum TokenView {
    XMLDeclStart,
    ElementHeadStart(Seq<char>),
    ElementHeadClose,
    ElementHFEnd,
    ElementFootStart(Seq<char>),
    XMLDeclEnd,
    Name(Seq<char>),
    Eq,
    AttributeValue(Seq<char>),
    Text(Seq<char>),
}

impl View for Token {
    type V = TokenView;

    open spec fn view(&self) -> TokenView {
        match *self {
            Token::XMLDeclStart => TokenView::XMLDeclStart,
            Token::ElementHeadStart(name) => TokenView::ElementHeadStart(name@),
            Token::ElementHeadClose => TokenView::ElementHeadClose,
            Token::ElementHFEnd => TokenView::ElementHFEnd,
            Token::ElementFootStart(name) => TokenView::ElementFootStart(name@),
            Token::XMLDeclEnd => TokenView::XMLDeclEnd,
            Token::Name(name) => TokenView::Name(name@),
            Token::Eq => TokenView::Eq,
            Token::AttributeValue(value) => TokenView::AttributeValue(value@),
            Token::Text(text) => TokenView::Text(text@),
        }
    }
}

impl TokenView {
    /// The name by which an error message calls the token.
    pub open spec fn name(self) -> Seq<char> {
        match self {
            TokenView::XMLDeclStart => Token::NAME_XMLDECLSTART@,
            TokenView::ElementHeadStart(_) => Token::NAME_ELEMENTHEADSTART@,
            TokenView::ElementHeadClose => Token::NAME_ELEMENTHEADCLOSE@,
            TokenView::ElementHFEnd => Token::NAME_ELEMENTHFEND@,
            TokenView::ElementFootStart(_) => Token::NAME_ELEMENTFOOTSTART@,
            TokenView::XMLDeclEnd => Token::NAME_XMLDECLEND@,
            TokenView::Name(_) => Token::NAME_NAME@,
            TokenView::Eq => Token::NAME_EQ@,
            TokenView::AttributeValue(_) => Token::NAME_ATTRIBUTEVALUE@,
            TokenView::Text(_) => Token::NAME_TEXT@,
        }
    }
}

impl Token {
    pub const NAME_XMLDECLSTART: &'static str = "'<?xml'";

    pub const NAME_ELEMENTHEADSTART: &'static str = "'<'";

    pub const NAME_ELEMENTHEADCLOSE: &'static str = "'/>'";

    pub const NAME_ELEMENTHFEND: &'static str = "'>'";

    pub const NAME_ELEMENTFOOTSTART: &'static str = "'</'";

    pub const NAME_XMLDECLEND: &'static str = "'?>'";

    pub const NAME_NAME: &'static str = "Name";

    pub const NAME_EQ: &'static str = "'='";

    pub const NAME_ATTRIBUTEVALUE: &'static str = "AttributeValue";

    pub const NAME_TEXT: &'static str = "Text";

    /// The name by which an error message calls the token.
    pub fn name(&self) -> (name: &'static str)
        ensures
            name@ == self@.name(),
    {
        match self {
            Token::XMLDeclStart => Self::NAME_XMLDECLSTART,
            Token::ElementHeadStart(_) => Self::NAME_ELEMENTHEADSTART,
            Token::ElementHeadClose => Self::NAME_ELEMENTHEADCLOSE,
            Token::ElementHFEnd => Self::NAME_ELEMENTHFEND,
            Token::ElementFootStart(_) => Self::NAME_ELEMENTFOOTSTART,
            Token::XMLDeclEnd => Self::NAME_XMLDECLEND,
            Token::Name(_) => Self::NAME_NAME,
            Token::Eq => Self::NAME_EQ,
            Token::AttributeValue(_) => Self::NAME_ATTRIBUTEVALUE,
            Token::Text(_) => Self::NAME_TEXT,
        }
    }
}

impl Clone for Token {
    fn clone(&self) -> (copy: Token)
        ensures
            copy@ == self@,
    {
        match self {
            Token::XMLDeclStart => Token::XMLDeclStart,
            Token::ElementHeadStart(name) => Token::ElementHeadStart(name.clone()),
            Token::ElementHeadClose => Token::ElementHeadClose,
            Token::ElementHFEnd => Token::ElementHFEnd,
            Token::ElementFootStart(name) => Token::ElementFootStart(name.clone()),
            Token::XMLDeclEnd => Token::XMLDeclEnd,
            Token::Name(name) => Token::Name(name.clone()),
            Token::Eq => Token::Eq,
            Token::AttributeValue(value) => Token::AttributeValue(value.clone()),
            Token::Text(text) => Token::Text(text.clone()),
        }
    }
}

/// What one attempt to read a token gave: a token, the end of the input, or an error.
pub type ReadView = Result<Option<TokenView>, ErrorView>;

/// What an attempt to read a token gave, as a mathematical value.
pub open spec fn read_of(read: Result<Option<Token>, Error>) -> ReadView {
    match read {
        Ok(Some(token)) => Ok(Some(token@)),
        Ok(None) => Ok(None),
        Err(e) => Err(e@),
    }
}

/// A source of characters.
pub trait CodepointRead {
    /// The next character, or `None` at the end of the input.
    fn read(&mut self) -> Result<Option<char>, Error>;
}

/// What turns characters into tokens.
pub trait Lexer {
    /// A lexer in the state `self`, at the source `src`, may give `read` and leave itself and the
    /// source as `lexer_after` and `src_after`. Of a lexer that does not say more, anything may
    /// come.
    open spec fn lexes<R: CodepointRead>(
        &self,
        src: &R,
        read: Result<Option<Token>, Error>,
        lexer_after: &Self,
        src_after: &R,
    ) -> bool {
        true
    }

    /// The next token of the characters of `src`, or `None` at the end of the input.
    fn lex<R: CodepointRead>(&mut self, src: &mut R) -> (read: Result<Option<Token>, Error>)
        ensures
            old(self).lexes(old(src), read, final(self), final(src)),
    ;
}

} // verus!
