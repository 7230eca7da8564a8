# djot_block

Block-level parsing of djot markup, verified with Verus.

The parser reads a document line by line and records its block structure as
a flat sequence of events: a container or leaf block is entered and exited, a
block without children is an atom, and each line of a leaf's inline content is
an inline event. Every event carries the span of the source it refers to.

## Layout

- `src/text.rs`: UTF-8 text as bytes: character widths, white space in the
  sense of `char::is_whitespace`, trimming.
- `src/span.rs`: byte ranges of the source.
- `src/attr.rs`: recognition of an attribute block `{#id .class key=value}`.
- `src/tree.rs`: events, the builder that records them, and what it means for
  events to form a tree.
- `src/block.rs`: reading the first line of a block (`BlockParser::new`; a
  line is blank exactly where it holds nothing but white space),
  deciding which lines continue it (`BlockParser::continues`), the extent of a
  block (`BlockParser::parse`), and the parser of a whole document
  (`TreeParser`, `parse`), each against a specification written over the
  source bytes.
- `src/names.rs`: block kinds displayed by name.
- `src/accept.rs`: every ASCII text without a `|` of at most 32768 bytes
  parses.
- `src/boundaries.rs`: every span of a parse of a `str` starts and ends at
  character boundaries, so that the text of each event can be sliced out.
- `src/nesting.rs`, `src/markers.rs`, `src/order.rs`: what every parse
  guarantees: the events are well nested and lie in the source; each inline
  event lies within one line, and inline events come in document order;
  outside code blocks the inline text of a leaf starts without white space,
  and its last line ends without; the span of each block covers its marker
  (the `#` characters of a heading, the `>` of a block quote, the tag of a
  link definition, ...); a list is entered together with its first item, and
  every list item directly inside a list of its type (an item of another type
  than the open list closes it and starts a new one); the open lists nest
  strictly one in the other.

Text that no reading is defined for (a container prefix that, counted in
characters and cut as bytes, ends inside a character; a table
row that ends inside a character, or a lone `|`; lists nested deeper than a
`u16` counts) is refused. Verus proves that `TreeParser::try_parse` returns
`None` exactly where the specification `spec_parse` has no result, and that
`parse` requires a result; that these are the cases in which the
specification has none is read from the specification, not proved. What is
proved is a sufficient condition for success: every ASCII text without a `|`
of at most 32768 bytes parses (`accept.rs`).
