# lightml

A small HTML parser with a subset of CSS selectors and text extraction,
written in Verus: every function of the library carries a contract that
Verus proves.

- `src/text.rs`: UTF-8 byte accounting, slicing a `str` by character
  positions, and the character classes the scanners use.
- `src/lexer.rs`: `Lexer`, a cursor over the document text. Each operation
  is specified by a step function over the text and the position.
- `src/html.rs`: the tree (`Element`, `Node`, ...), its mathematical model,
  and the parser, specified by spec functions (`parse_element`,
  `parse_children`, ...) that give the result, the new position and the
  chain of open elements.
- `src/matching.rs`: selectors (`tag.class#id[key<op>value]`), the test of
  one element, and the searches of a subtree in document order.
- `src/operations.rs`: character references in text and the inner text of
  a subtree.
- `src/retrieval.rs`: `retrieve`, which answers a query made of steps
  separated by `'\0'` (`single <selector>`, `all <selector>`, then
  `attribute <key>`, `text` or `table`).
- `tests/`: the scenarios of the parser's specification and the tests of
  each module.
- `app/`: the `retrieve` entry point exported to JavaScript hosts.
