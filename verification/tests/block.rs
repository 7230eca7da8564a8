use djot_block::block::Atom::{Attributes, Blankline, ThematicBreak};
use djot_block::block::Container::{Blockquote, Footnote, List, ListItem};
use djot_block::block::Leaf::{CodeBlock, Heading, LinkDefinition, Paragraph};
use djot_block::block::ListType::{Description, Ordered, Task, Unordered};
use djot_block::block::Node::{Container, Leaf};
use djot_block::block::{lines, Block, BlockParser, TreeParser};
use djot_block::span::Span;
use djot_block::tree::EventKind;
use djot_block::tree::EventKind::{Atom, Enter, Exit, Inline};
use djot_block::OrderedListNumbering::{AlphaLower, AlphaUpper, Decimal, RomanLower, RomanUpper};
use djot_block::OrderedListStyle::{Paren, ParenParen, Period};

fn of(src: &str, sp: Span) -> &str {
    &src[sp.start()..sp.end()]
}

fn expect_parse(src: &str, expected: &[(EventKind, &str)]) {
    let t = TreeParser::new(src).parse();
    let actual: Vec<(EventKind, &str)> =
        t.events().iter().map(|ev| (ev.kind, of(src, ev.span))).collect();
    assert_eq!(actual, expected, "\n\n{}\n\n", src);
}

fn expect_block(src: &str, kind: Block, s: &str, len: usize) {
    let ls: Vec<&str> = lines(src).iter().map(|sp| of(src, *sp)).collect();
    let (_indent, k, sp, l) = BlockParser::parse(&ls).unwrap();
    assert_eq!((k, of(src, sp), l), (kind, s, len), "\n\n{}\n\n", src);
}

#[test]
fn parse_para_oneline() {
    expect_parse(
        "para\n",
        &[
            (Enter(Leaf(Paragraph)), ""),
            (Inline, "para"),
            (Exit(Leaf(Paragraph)), ""),
        ],
    );
}

#[test]
fn parse_para_multiline() {
    expect_parse(
        "para0\npara1\n",
        &[
            (Enter(Leaf(Paragraph)), ""),
            (Inline, "para0\n"),
            (Inline, "para1"),
            (Exit(Leaf(Paragraph)), ""),
        ],
    );
}

#[test]
fn parse_heading_multi() {
    expect_parse(
        "# 2\n\n #   8\n  12\n15\n",
        &[
            (Enter(Leaf(Heading)), "#"),
            (Inline, "2"),
            (Exit(Leaf(Heading)), "#"),
            (Atom(Blankline), "\n"),
            (Enter(Leaf(Heading)), "#"),
            (Inline, "8\n"),
            (Inline, "12\n"),
            (Inline, "15"),
            (Exit(Leaf(Heading)), "#"),
        ],
    );
}

#[test]
fn parse_blockquote() {
    expect_parse(
        "> a\n",
        &[
            (Enter(Container(Blockquote)), ">"),
            (Enter(Leaf(Paragraph)), ""),
            (Inline, "a"),
            (Exit(Leaf(Paragraph)), ""),
            (Exit(Container(Blockquote)), ">"),
        ],
    );
    expect_parse(
        "> a\nb\nc\n",
        &[
            (Enter(Container(Blockquote)), ">"),
            (Enter(Leaf(Paragraph)), ""),
            (Inline, "a\n"),
            (Inline, "b\n"),
            (Inline, "c"),
            (Exit(Leaf(Paragraph)), ""),
            (Exit(Container(Blockquote)), ">"),
        ],
    );
    expect_parse(
        "> a\n>\n> ## hl\n>\n>  para\n",
        &[
            (Enter(Container(Blockquote)), ">"),
            (Enter(Leaf(Paragraph)), ""),
            (Inline, "a"),
            (Exit(Leaf(Paragraph)), ""),
            (Atom(Blankline), "\n"),
            (Enter(Leaf(Heading)), "##"),
            (Inline, "hl"),
            (Exit(Leaf(Heading)), "##"),
            (Atom(Blankline), "\n"),
            (Enter(Leaf(Paragraph)), ""),
            (Inline, "para"),
            (Exit(Leaf(Paragraph)), ""),
            (Exit(Container(Blockquote)), ">"),
        ],
    );
}

#[test]
fn parse_blockquote_empty() {
    expect_parse(
        "> \n",
        &[
            (Enter(Container(Blockquote)), ">"),
            (EventKind::Atom(Blankline), "\n"),
            (Exit(Container(Blockquote)), ">"),
        ],
    );
    expect_parse(
        ">",
        &[
            (Enter(Container(Blockquote)), ">"),
            (EventKind::Atom(Blankline), ""),
            (Exit(Container(Blockquote)), ">"),
        ],
    );
}

#[test]
fn parse_code_block() {
    expect_parse(
        "```\nl0\n",
        &[
            (Enter(Leaf(CodeBlock)), ""),
            (Inline, "l0\n"),
            (Exit(Leaf(CodeBlock)), ""),
        ],
    );
    expect_parse(
        "```\nl0\n```\n\npara\n",
        &[
            (Enter(Leaf(CodeBlock)), ""),
            (Inline, "l0\n"),
            (Exit(Leaf(CodeBlock)), ""),
            (Atom(Blankline), "\n"),
            (Enter(Leaf(Paragraph)), ""),
            (Inline, "para"),
            (Exit(Leaf(Paragraph)), ""),
        ],
    );
    expect_parse(
        "````  lang\nl0\n```\n l1\n````",
        &[
            (Enter(Leaf(CodeBlock)), "lang"),
            (Inline, "l0\n"),
            (Inline, "```\n"),
            (Inline, " l1\n"),
            (Exit(Leaf(CodeBlock)), "lang"),
        ],
    );
    expect_parse(
        "```\na\n```\n```\nbbb\n```\n",
        &[
            (Enter(Leaf(CodeBlock)), ""),
            (Inline, "a\n"),
            (Exit(Leaf(CodeBlock)), ""),
            (Enter(Leaf(CodeBlock)), ""),
            (Inline, "bbb\n"),
            (Exit(Leaf(CodeBlock)), ""),
        ],
    );
    expect_parse(
        "~~~\ncode\n  block\n~~~\n",
        &[
            (Enter(Leaf(CodeBlock)), ""),
            (Inline, "code\n"),
            (Inline, "  block\n"),
            (Exit(Leaf(CodeBlock)), ""),
        ],
    );
}

#[test]
fn parse_link_definition() {
    expect_parse(
        "[tag]: url\n",
        &[
            (Enter(Leaf(LinkDefinition)), "tag"),
            (Inline, "url"),
            (Exit(Leaf(LinkDefinition)), "tag"),
        ],
    );
}

#[test]
fn parse_footnote() {
    expect_parse(
        "[^tag]: description\n",
        &[
            (Enter(Container(Footnote)), "tag"),
            (Enter(Leaf(Paragraph)), ""),
            (Inline, "description"),
            (Exit(Leaf(Paragraph)), ""),
            (Exit(Container(Footnote)), "tag"),
        ],
    );
}

#[test]
fn parse_footnote_post() {
    expect_parse(
        "[^a]\n\n[^a]: note\n\npara\n",
        &[
            (Enter(Leaf(Paragraph)), ""),
            (Inline, "[^a]"),
            (Exit(Leaf(Paragraph)), ""),
            (Atom(Blankline), "\n"),
            (Enter(Container(Footnote)), "a"),
            (Enter(Leaf(Paragraph)), ""),
            (Inline, "note"),
            (Exit(Leaf(Paragraph)), ""),
            (Atom(Blankline), "\n"),
            (Exit(Container(Footnote)), "a"),
            (Enter(Leaf(Paragraph)), ""),
            (Inline, "para"),
            (Exit(Leaf(Paragraph)), ""),
        ],
    );
}

#[test]
fn parse_attr() {
    expect_parse(
        "{.some_class}\npara\n",
        &[
            (Atom(Attributes), "{.some_class}\n"),
            (Enter(Leaf(Paragraph)), ""),
            (Inline, "para"),
            (Exit(Leaf(Paragraph)), ""),
        ],
    );
}

#[test]
fn parse_list_single_item() {
    expect_parse(
        "- abc\n\n\n",
        &[
            (Enter(Container(List(Unordered(b'-')))), "-"),
            (Enter(Container(ListItem(Unordered(b'-')))), "-"),
            (Enter(Leaf(Paragraph)), ""),
            (Inline, "abc"),
            (Exit(Leaf(Paragraph)), ""),
            (Atom(Blankline), "\n"),
            (Atom(Blankline), "\n"),
            (Exit(Container(ListItem(Unordered(b'-')))), "-"),
            (Exit(Container(List(Unordered(b'-')))), "-"),
        ],
    );
}

#[test]
fn parse_list_multi_item() {
    expect_parse(
        "- abc\n\n\n- def\n\n",
        &[
            (Enter(Container(List(Unordered(b'-')))), "-"),
            (Enter(Container(ListItem(Unordered(b'-')))), "-"),
            (Enter(Leaf(Paragraph)), ""),
            (Inline, "abc"),
            (Exit(Leaf(Paragraph)), ""),
            (Atom(Blankline), "\n"),
            (Atom(Blankline), "\n"),
            (Exit(Container(ListItem(Unordered(b'-')))), "-"),
            (Enter(Container(ListItem(Unordered(b'-')))), "-"),
            (Enter(Leaf(Paragraph)), ""),
            (Inline, "def"),
            (Exit(Leaf(Paragraph)), ""),
            (Atom(Blankline), "\n"),
            (Exit(Container(ListItem(Unordered(b'-')))), "-"),
            (Exit(Container(List(Unordered(b'-')))), "-"),
        ],
    );
}

#[test]
fn parse_list_nest() {
    expect_parse(
        "- a\n\n   - aa\n\n\n- b\n",
        &[
            (Enter(Container(List(Unordered(b'-')))), "-"),
            (Enter(Container(ListItem(Unordered(b'-')))), "-"),
            (Enter(Leaf(Paragraph)), ""),
            (Inline, "a"),
            (Exit(Leaf(Paragraph)), ""),
            (Atom(Blankline), "\n"),
            (Enter(Container(List(Unordered(b'-')))), "-"),
            (Enter(Container(ListItem(Unordered(b'-')))), "-"),
            (Enter(Leaf(Paragraph)), ""),
            (Inline, "aa"),
            (Exit(Leaf(Paragraph)), ""),
            (Atom(Blankline), "\n"),
            (Atom(Blankline), "\n"),
            (Exit(Container(ListItem(Unordered(b'-')))), "-"),
            (Exit(Container(List(Unordered(b'-')))), "-"),
            (Exit(Container(ListItem(Unordered(b'-')))), "-"),
            (Enter(Container(ListItem(Unordered(b'-')))), "-"),
            (Enter(Leaf(Paragraph)), ""),
            (Inline, "b"),
            (Exit(Leaf(Paragraph)), ""),
            (Exit(Container(ListItem(Unordered(b'-')))), "-"),
            (Exit(Container(List(Unordered(b'-')))), "-"),
        ],
    );
}

#[test]
fn block_blankline() {
    expect_block("\n", Block::Atom(Blankline), "\n", 1);
    expect_block(" \n", Block::Atom(Blankline), "\n", 1);
}

#[test]
fn block_multiline() {
    expect_block("# heading\n spanning two lines\n", Block::Leaf(Heading), "#", 2);
}

#[test]
fn block_blockquote() {
    expect_block(
        "> a\n>\n  >  b\n>\n> c\n",
        Block::Container(Blockquote),
        ">",
        5,
    );
}

#[test]
fn block_thematic_break() {
    expect_block("---\n", Block::Atom(ThematicBreak), "---", 1);
    expect_block(
        "   -*- -*-\n\npara",
        Block::Atom(ThematicBreak),
        "-*- -*-",
        1,
    );
}

#[test]
fn block_code_block() {
    expect_block(
        "````  lang\nl0\n```\n l1\n````",
        Block::Leaf(CodeBlock),
        "lang",
        5,
    );
    expect_block(
        "```\na\n```\n```\nbbb\n```\n",
        Block::Leaf(CodeBlock),
        "",
        3,
    );
    expect_block(
        "``` no space in lang specifier\nl0\n```\n",
        Block::Leaf(Paragraph),
        "",
        3,
    );
}

#[test]
fn block_link_definition() {
    expect_block("[tag]: url\n", Block::Leaf(LinkDefinition), "tag", 1);
}

#[test]
fn block_link_definition_multiline() {
    expect_block(
        "[tag]: uuu\n rl\n",
        Block::Leaf(LinkDefinition),
        "tag",
        2,
    );
    expect_block(
        "[tag]: url\npara\n",
        Block::Leaf(LinkDefinition),
        "tag",
        1,
    );
}

#[test]
fn block_footnote_empty() {
    expect_block("[^tag]:\n", Block::Container(Footnote), "tag", 1);
}

#[test]
fn block_footnote_single() {
    expect_block("[^tag]: a\n", Block::Container(Footnote), "tag", 1);
}

#[test]
fn block_footnote_multiline() {
    expect_block(
        "[^tag]: a\n b\n",
        Block::Container(Footnote),
        "tag",
        2,
    );
}

#[test]
fn block_footnote_multiline_post() {
    expect_block(
        "[^tag]: a\n b\n\npara\n",
        Block::Container(Footnote),
        "tag",
        3,
    );
}

#[test]
fn block_list_bullet() {
    expect_block("- abc\n", Block::Container(ListItem(Unordered(b'-'))), "-", 1);
    expect_block("+ abc\n", Block::Container(ListItem(Unordered(b'+'))), "+", 1);
    expect_block("* abc\n", Block::Container(ListItem(Unordered(b'*'))), "*", 1);
}

#[test]
fn block_list_description() {
    expect_block(": abc\n", Block::Container(ListItem(Description)), ":", 1);
}

#[test]
fn block_list_task() {
    expect_block("- [ ] abc\n", Block::Container(ListItem(Task)), "- [ ]", 1);
    expect_block("+ [x] abc\n", Block::Container(ListItem(Task)), "+ [x]", 1);
    expect_block("* [X] abc\n", Block::Container(ListItem(Task)), "* [X]", 1);
}

#[test]
fn block_list_ordered() {
    expect_block(
        "123. abc\n",
        Block::Container(ListItem(Ordered(Decimal, Period))),
        "123.",
        1,
    );
    expect_block(
        "i. abc\n",
        Block::Container(ListItem(Ordered(RomanLower, Period))),
        "i.",
        1,
    );
    expect_block(
        "I. abc\n",
        Block::Container(ListItem(Ordered(RomanUpper, Period))),
        "I.",
        1,
    );
    expect_block(
        "IJ. abc\n",
        Block::Container(ListItem(Ordered(AlphaUpper, Period))),
        "IJ.",
        1,
    );
    expect_block(
        "(a) abc\n",
        Block::Container(ListItem(Ordered(AlphaLower, ParenParen))),
        "(a)",
        1,
    );
    expect_block(
        "a) abc\n",
        Block::Container(ListItem(Ordered(AlphaLower, Paren))),
        "a)",
        1,
    );
}
