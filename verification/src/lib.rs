//! A parser for a restricted subset of XML 1.0 with namespaces.
//!
//! The parser is given the tokens of a document, by a [`parser::TokenRead`] or one by one, and
//! tells the [`event::Event`]s of it. The module [`grammar`] says which tokens make a document and
//! what is told of it; [`tokens`] says what that comes to for each token, [`meaning`] what it comes
//! to for names and attributes, and [`laws`], [`scoping`] and [`order`] what follows for every
//! document. What the mathematical values in all of these stand for is said in [`views`].

pub mod attributes;
pub mod error;
pub mod event;
pub mod grammar;
pub mod laws;
pub mod lexer;
pub mod meaning;
pub mod name;
pub mod order;
pub mod parser;
pub mod scoping;
pub mod text;
pub mod tokens;
pub mod views;
