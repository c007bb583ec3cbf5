# rxml

A parser for a restricted subset of XML 1.0 with namespaces, verified with Verus.

The parser takes the tokens of a document and tells events: the XML declaration, the start of an
element with its resolved name and attributes, text, and the end of an element. Documents have to
be standalone, of version 1.0 and in UTF-8.

- `parser` has the parser and its source of tokens, `lexer` the tokens, `event` the events,
  `error` the errors.
- `name` splits names at their colon, `attributes` holds the attributes of an element, `text`
  compares strings.
- `grammar` says what a parser makes of each token; the contracts of the parser speak of it.
- `laws`, `scoping` and `order` prove what follows for every document: that events are nested and
  told in order, that errors are final, how prefixes are resolved, that tags match, and that the
  order of attributes does not matter.
