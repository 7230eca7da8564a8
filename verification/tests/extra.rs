use djot_block::attr::valid;
use djot_block::block::Atom::{Attributes, Blankline, ThematicBreak};
use djot_block::block::Container::{Blockquote, Div, Footnote, List, ListItem};
use djot_block::block::Leaf::{CodeBlock, Heading, LinkDefinition, Paragraph, Table};
use djot_block::block::ListType::{Description, Ordered, Task, Unordered};
use djot_block::block::Node::{Container, Leaf};
use djot_block::block::{lines, parse, BlockParser, Node, TreeParser};
use djot_block::span::Span;
use djot_block::tree::EventKind;
use djot_block::tree::EventKind::{Atom, Enter, Exit, Inline};
use djot_block::block::Block;
use djot_block::OrderedListNumbering::{AlphaUpper, Decimal, RomanLower};
use djot_block::OrderedListStyle::{Paren, ParenParen, Period};

fn of(src: &str, sp: Span) -> &str {
    &src[sp.start()..sp.end()]
}

fn events(src: &str) -> Vec<(EventKind, &str)> {
    let t = parse(src);
    t.events().iter().map(|ev| (ev.kind, of(src, ev.span))).collect()
}

/// Replays the events on a stack of open blocks, as a reader of the tree would.
fn nested(src: &str) -> bool {
    let t = parse(src);
    let mut open: Vec<(Node, Span)> = Vec::new();
    for ev in t.events() {
        if ev.span.start() > ev.span.end() || ev.span.end() > src.len() {
            return false;
        }
        let in_leaf = matches!(open.last(), Some((Node::Leaf(_), _)));
        match ev.kind {
            Enter(n) => {
                if in_leaf {
                    return false;
                }
                open.push((n, ev.span));
            }
            Exit(n) => {
                if open.pop() != Some((n, ev.span)) {
                    return false;
                }
            }
            Atom(_) => {
                if in_leaf {
                    return false;
                }
            }
            Inline => {
                if !in_leaf {
                    return false;
                }
            }
        }
    }
    open.is_empty()
}

#[test]
fn lines_tile_the_source() {
    let src = "a\n\nbc\nd";
    let ls: Vec<(usize, usize)> = lines(src).iter().map(|s| (s.start(), s.end())).collect();
    assert_eq!(ls, vec![(0, 2), (2, 3), (3, 6), (6, 7)]);
    assert!(lines("").is_empty());
    let ls: Vec<(usize, usize)> = lines("\n\n").iter().map(|s| (s.start(), s.end())).collect();
    assert_eq!(ls, vec![(0, 1), (1, 2)]);
}

#[test]
fn parse_is_well_nested() {
    for src in [
        "- a\n\n   - aa\n\n\n- b\n",
        "> > a\nb\n\n# h\n",
        "[^n]: x\n  - y\n\n::: c\n:::\n",
        "```\nunclosed\n",
        "",
    ] {
        assert!(nested(src), "{}", src);
    }
}

#[test]
fn parse_and_tree_parser_agree() {
    let src = "# t\n\n- a\n- b\n";
    assert_eq!(parse(src).events(), TreeParser::new(src).parse().events());
}

#[test]
fn try_parse_refuses_what_cannot_be_read() {
    // A lone `|` is read as a table row, which cannot be cut.
    assert!(TreeParser::new("|").try_parse().is_none());
    // A row that ends in a character of more than one byte.
    assert!(TreeParser::new("|\u{e9}").try_parse().is_none());
    // A block quote prefix counted in characters, cut as bytes, inside a character.
    assert!(TreeParser::new("> a\n>\u{a0}b\n").try_parse().is_none());
    assert!(TreeParser::new("> a\n> \u{a0}b\n").try_parse().is_some());
    // The same texts with a newline parse as paragraphs.
    assert!(TreeParser::new("|\n").try_parse().is_some());
    assert!(TreeParser::new("\u{a0}\u{a0}x").try_parse().is_some());
}

#[test]
fn parse_table_row() {
    assert_eq!(
        events("|a|"),
        vec![(Enter(Leaf(Table)), "|"), (Inline, "a|"), (Exit(Leaf(Table)), "|")]
    );
    assert_eq!(
        events("|a\\|"),
        vec![(Enter(Leaf(Paragraph)), ""), (Inline, "|a\\|"), (Exit(Leaf(Paragraph)), "")]
    );
}

#[test]
fn parse_heading_markers() {
    assert_eq!(events("###"), vec![(Enter(Leaf(Heading)), "###"), (Exit(Leaf(Heading)), "###")]);
    assert_eq!(
        events("#\u{3000}x\n"),
        vec![(Enter(Leaf(Heading)), "#"), (Inline, "x"), (Exit(Leaf(Heading)), "#")]
    );
    assert_eq!(
        events("#x\n"),
        vec![(Enter(Leaf(Paragraph)), ""), (Inline, "#x"), (Exit(Leaf(Paragraph)), "")]
    );
}

#[test]
fn parse_thematic_break_and_attributes() {
    assert_eq!(
        events("***\n{#id .c k=v k2=\"q\\\"\"}\n"),
        vec![
            (Atom(ThematicBreak), "***"),
            (Atom(Attributes), "{#id .c k=v k2=\"q\\\"\"}\n"),
        ]
    );
    assert_eq!(
        events("{.c\n"),
        vec![(Enter(Leaf(Paragraph)), ""), (Inline, "{.c"), (Exit(Leaf(Paragraph)), "")]
    );
}

#[test]
fn attribute_lengths() {
    assert_eq!(valid(b"{.a #b}x"), 7);
    assert_eq!(valid(b"{% note %}"), 10);
    assert_eq!(valid(b"{.a"), 0);
    assert_eq!(valid(b"{=}"), 0);
    assert_eq!(valid(b"x{}"), 0);
}

#[test]
fn parse_unclosed_code_block() {
    assert_eq!(
        events("~~~ rust\nfn f() {}\n"),
        vec![
            (Enter(Leaf(CodeBlock)), "rust"),
            (Inline, "fn f() {}\n"),
            (Exit(Leaf(CodeBlock)), "rust"),
        ]
    );
}

#[test]
fn parse_empty_div() {
    assert_eq!(
        events("::: warning\n:::\n"),
        vec![(Enter(Container(Div)), "warning"), (Exit(Container(Div)), "warning")]
    );
}

#[test]
fn parse_lazy_blockquote_ends_at_blank_line() {
    assert_eq!(
        events("> a\nb\n\nc\n"),
        vec![
            (Enter(Container(Blockquote)), ">"),
            (Enter(Leaf(Paragraph)), ""),
            (Inline, "a\n"),
            (Inline, "b"),
            (Exit(Leaf(Paragraph)), ""),
            (Exit(Container(Blockquote)), ">"),
            (Atom(Blankline), "\n"),
            (Enter(Leaf(Paragraph)), ""),
            (Inline, "c"),
            (Exit(Leaf(Paragraph)), ""),
        ]
    );
}

#[test]
fn parse_task_and_description_lists() {
    assert_eq!(
        events("- [x] done\n"),
        vec![
            (Enter(Container(List(Task))), "- [x]"),
            (Enter(Container(ListItem(Task))), "- [x]"),
            (Enter(Leaf(Paragraph)), ""),
            (Inline, "done"),
            (Exit(Leaf(Paragraph)), ""),
            (Exit(Container(ListItem(Task))), "- [x]"),
            (Exit(Container(List(Task))), "- [x]"),
        ]
    );
    assert_eq!(
        events(": term\n"),
        vec![
            (Enter(Container(List(Description))), ":"),
            (Enter(Container(ListItem(Description))), ":"),
            (Enter(Leaf(Paragraph)), ""),
            (Inline, "term"),
            (Exit(Leaf(Paragraph)), ""),
            (Exit(Container(ListItem(Description))), ":"),
            (Exit(Container(List(Description))), ":"),
        ]
    );
}

#[test]
fn parse_link_definition_continued() {
    assert_eq!(
        events("[a]: http://\n example\n"),
        vec![
            (Enter(Leaf(LinkDefinition)), "a"),
            (Inline, "http://\n"),
            (Inline, "example"),
            (Exit(Leaf(LinkDefinition)), "a"),
        ]
    );
}

#[test]
fn block_ordered_markers() {
    let ls = ["(iv) x\n"];
    let (_, k, sp, n) = BlockParser::parse(&ls).unwrap();
    assert_eq!(
        (k, &ls[0][sp.start()..sp.end()], n),
        (djot_block::block::Block::Container(ListItem(Ordered(RomanLower, ParenParen))), "(iv)", 1)
    );
    let ls = ["  10) x\n"];
    let (indent, k, sp, n) = BlockParser::parse(&ls).unwrap();
    assert_eq!(
        (indent, k, &ls[0][sp.start()..sp.end()], n),
        (2, djot_block::block::Block::Container(ListItem(Ordered(Decimal, Paren))), "10)", 1)
    );
    let ls = ["1.x\n"];
    let (_, k, _, _) = BlockParser::parse(&ls).unwrap();
    assert_eq!(k, djot_block::block::Block::Leaf(Paragraph));
    let none: [&str; 0] = [];
    assert!(BlockParser::parse(&none).is_none());
}

#[test]
fn list_items_of_one_type_share_a_list() {
    assert_eq!(
        events("- a\n- b\n"),
        vec![
            (Enter(Container(List(Unordered(b'-')))), "-"),
            (Enter(Container(ListItem(Unordered(b'-')))), "-"),
            (Enter(Leaf(Paragraph)), ""),
            (Inline, "a"),
            (Exit(Leaf(Paragraph)), ""),
            (Exit(Container(ListItem(Unordered(b'-')))), "-"),
            (Enter(Container(ListItem(Unordered(b'-')))), "-"),
            (Enter(Leaf(Paragraph)), ""),
            (Inline, "b"),
            (Exit(Leaf(Paragraph)), ""),
            (Exit(Container(ListItem(Unordered(b'-')))), "-"),
            (Exit(Container(List(Unordered(b'-')))), "-"),
        ]
    );
}

#[test]
fn a_new_marker_type_starts_a_new_list() {
    assert_eq!(
        events("- a\n+ b\n"),
        vec![
            (Enter(Container(List(Unordered(b'-')))), "-"),
            (Enter(Container(ListItem(Unordered(b'-')))), "-"),
            (Enter(Leaf(Paragraph)), ""),
            (Inline, "a"),
            (Exit(Leaf(Paragraph)), ""),
            (Exit(Container(ListItem(Unordered(b'-')))), "-"),
            (Exit(Container(List(Unordered(b'-')))), "-"),
            (Enter(Container(List(Unordered(b'+')))), "+"),
            (Enter(Container(ListItem(Unordered(b'+')))), "+"),
            (Enter(Leaf(Paragraph)), ""),
            (Inline, "b"),
            (Exit(Leaf(Paragraph)), ""),
            (Exit(Container(ListItem(Unordered(b'+')))), "+"),
            (Exit(Container(List(Unordered(b'+')))), "+"),
        ]
    );
    assert_eq!(
        events("1. a\n1) b\n"),
        vec![
            (Enter(Container(List(Ordered(Decimal, Period)))), "1."),
            (Enter(Container(ListItem(Ordered(Decimal, Period)))), "1."),
            (Enter(Leaf(Paragraph)), ""),
            (Inline, "a"),
            (Exit(Leaf(Paragraph)), ""),
            (Exit(Container(ListItem(Ordered(Decimal, Period)))), "1."),
            (Exit(Container(List(Ordered(Decimal, Period)))), "1."),
            (Enter(Container(List(Ordered(Decimal, Paren)))), "1)"),
            (Enter(Container(ListItem(Ordered(Decimal, Paren)))), "1)"),
            (Enter(Leaf(Paragraph)), ""),
            (Inline, "b"),
            (Exit(Leaf(Paragraph)), ""),
            (Exit(Container(ListItem(Ordered(Decimal, Paren)))), "1)"),
            (Exit(Container(List(Ordered(Decimal, Paren)))), "1)"),
        ]
    );
}

#[test]
fn blocks_display_by_name() {
    assert_eq!(
        Block::Container(ListItem(Ordered(Decimal, Period))).display(),
        "ListItem(Ordered(Decimal, Period))"
    );
    assert_eq!(Block::Container(List(Unordered(b'-'))).display(), "List(Unordered(45))");
    assert_eq!(Block::Container(List(Unordered(b'+'))).display(), "List(Unordered(43))");
    assert_eq!(Block::Container(List(Unordered(200))).display(), "List(Unordered(200))");
    assert_eq!(Block::Container(List(Unordered(7))).display(), "List(Unordered(7))");
    assert_eq!(
        Block::Container(ListItem(Ordered(AlphaUpper, ParenParen))).display(),
        "ListItem(Ordered(AlphaUpper, ParenParen))"
    );
    assert_eq!(Block::Container(Blockquote).display(), "Blockquote");
    assert_eq!(Block::Container(ListItem(Task)).display(), "ListItem(Task)");
    assert_eq!(Block::Leaf(CodeBlock).display(), "CodeBlock");
    assert_eq!(Block::Atom(ThematicBreak).display(), "ThematicBreak");
    assert_eq!(ThematicBreak.display(), "Inline");
    assert_eq!(Blankline.display(), "Inline");
}

#[test]
fn spans_cover_block_markers() {
    let cases: Vec<(&str, Node, &str)> = vec![
        ("## a\n", Leaf(Heading), "##"),
        ("> b\n", Container(Blockquote), ">"),
        ("  c\n", Leaf(Paragraph), ""),
        ("|x|", Leaf(Table), "|"),
        ("- c\n", Container(List(Unordered(b'-'))), "-"),
        ("1) d\n", Container(List(Ordered(Decimal, Paren))), "1)"),
        ("[x]: y\n", Leaf(LinkDefinition), "x"),
        ("[^f]: g\n", Container(Footnote), "f"),
        ("``` rust\nh\n```\n", Leaf(CodeBlock), "rust"),
        ("::: warn\nh\n:::\n", Container(Div), "warn"),
        ("- [x] t\n", Container(List(Task)), "- [x]"),
        ("(iv) r\n", Container(List(Ordered(RomanLower, ParenParen))), "(iv)"),
        (": term\n", Container(List(Description)), ":"),
    ];
    for (src, node, marker) in cases {
        let first = events(src)[0];
        assert_eq!(first, (Enter(node), marker), "{:?}", src);
    }
}

#[test]
fn lists_open_with_their_first_item() {
    let docs = [
        "- a\n- b\n\n  - c\n\n1. d\n",
        "- [ ] a\n- [x] b\n: c\n",
        "> - a\n>   - b\n",
        "a) x\n\n   b) y\n",
    ];
    for src in docs {
        let evs = parse(src).into_events();
        let mut lists = 0;
        for i in 0..evs.len() {
            if let Enter(Container(List(ty))) = evs[i].kind {
                lists += 1;
                assert!(i + 1 < evs.len(), "{:?}", src);
                assert_eq!(evs[i + 1].kind, Enter(Container(ListItem(ty))), "{:?}", src);
                assert_eq!(evs[i + 1].span, evs[i].span, "{:?}", src);
            }
        }
        assert!(lists >= 1, "{:?}", src);
    }
}

#[test]
fn inlines_come_in_document_order() {
    let docs = [
        "para\ngraph\n\n# head\n\n> quote\n> more\n",
        "- a\n  b\n- c\n\n  > d\n  > e\n",
        "``` x\ncode\n  more\n```\n[l]: http://a\n b\n",
    ];
    for src in docs {
        let evs = parse(src).into_events();
        let mut last_end = 0;
        let mut inlines = 0;
        for ev in &evs {
            if ev.kind == Inline {
                assert!(ev.span.start() >= last_end, "{:?}", src);
                assert!(ev.span.end() >= ev.span.start(), "{:?}", src);
                last_end = ev.span.end();
                inlines += 1;
            }
        }
        assert!(inlines >= 3, "{:?}", src);
    }
}

#[test]
fn plain_ascii_always_parses() {
    let docs = [
        "> > > - - - a\n",
        "   \n\t\n- \n  * \n    + x",
        "{.a #b c=d e=\"f\" %g%}\n::: div\n```\n[^x]: y\n   z\n",
        "# \n#\n##x\n(a) (b)\nA. B)\n- [ ] - [x]\n:\n",
        "",
    ];
    for src in docs {
        assert!(TreeParser::new(src).try_parse().is_some(), "{:?}", src);
    }
}

#[test]
fn every_item_sits_directly_in_a_list_of_its_type() {
    let docs = [
        "- a\n+ b\n- c\n",
        "1. a\n\n   - b\n   - c\n2. d\n",
        "> - [ ] a\n> - [x] b\n> : c\n",
        "- a\n\n  1) b\n  2) c\n\n- d\n",
    ];
    for src in docs {
        let mut open: Vec<Node> = Vec::new();
        let mut items = 0;
        for ev in parse(src).into_events() {
            match ev.kind {
                Enter(n) => {
                    if let Container(ListItem(ty)) = n {
                        assert_eq!(open.last(), Some(&Container(List(ty))), "{:?}", src);
                        items += 1;
                    }
                    open.push(n);
                }
                Exit(_) => {
                    open.pop();
                }
                _ => {}
            }
        }
        assert!(items >= 3, "{:?}", src);
    }
}

#[test]
fn leaf_text_is_trimmed_outside_code_blocks() {
    let src = "  para \u{a0}\n   more  \n\n# \u{3000}head  \n\n```\n  code  \n```\n";
    let evs = events(src);
    assert_eq!(
        evs,
        vec![
            (Enter(Leaf(Paragraph)), ""),
            (Inline, "para \u{a0}\n"),
            (Inline, "more"),
            (Exit(Leaf(Paragraph)), ""),
            (Atom(Blankline), "\n"),
            (Enter(Leaf(Heading)), "#"),
            (Inline, "head"),
            (Exit(Leaf(Heading)), "#"),
            (Atom(Blankline), "\n"),
            (Enter(Leaf(CodeBlock)), ""),
            (Inline, "  code  \n"),
            (Exit(Leaf(CodeBlock)), ""),
        ]
    );
}

#[test]
fn blank_lines_hold_only_white_space() {
    let p = BlockParser::new("\0a\n".as_bytes()).unwrap();
    assert_eq!(p.kind, Block::Leaf(Paragraph));
    let p = BlockParser::new("\u{a0}\u{a0}\u{a0}\u{a0}\n".as_bytes()).unwrap();
    assert_eq!(p.kind, Block::Atom(Blankline));
    assert_eq!(p.indent, 4);
    assert_eq!(p.span, Span::new(8, 9));
    let p = BlockParser::new(" \u{a0}x".as_bytes()).unwrap();
    assert_eq!((p.kind, p.indent), (Block::Leaf(Paragraph), 2));
    assert_eq!(
        events("\0a\n"),
        vec![(Enter(Leaf(Paragraph)), ""), (Inline, "\0a"), (Exit(Leaf(Paragraph)), "")]
    );
    assert_eq!(
        events("\u{3000}> q\n"),
        vec![
            (Enter(Container(Blockquote)), ">"),
            (Enter(Leaf(Paragraph)), ""),
            (Inline, "q"),
            (Exit(Leaf(Paragraph)), ""),
            (Exit(Container(Blockquote)), ">"),
        ]
    );
}

#[test]
fn spans_cut_multibyte_text_at_character_boundaries() {
    let src = "# h\u{e9}\u{3000}\n\n> \u{a0}q\u{2003}\n\n- \u{e9}\n\n``` r\u{e9}\nx\u{3000}\n```\n[\u{e9}]: \u{e9}\n";
    for ev in parse(src).into_events() {
        assert!(src.is_char_boundary(ev.span.start()), "{:?}", ev);
        assert!(src.is_char_boundary(ev.span.end()), "{:?}", ev);
    }
}
