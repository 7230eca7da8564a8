//! What the span of each block covers: the `#` characters of a heading, the
//! `>` of a block quote, the first `|` of a table row, the tag of a link
//! definition or footnote, the specifier of a code block or div, the marker of
//! a list item (and of the first item of a list).
use vstd::prelude::*;
use crate::block::{
    all_roman, block_lines, block_span, class_run, contains_byte, cut, cut_lines, exit_n,
    find_close, in_class, init_state, lemma_block_lines, lemma_block_shrinks, lemma_class_run,
    lemma_find_close, lemma_new_facts, lemma_read_count, lemma_total_nonneg, lemma_total_split, numbering_of,
    ps_enter, ps_inlines, spec_block, spec_blocks, spec_classify, spec_close_list,
    spec_container, spec_leaf_lines, spec_lines, spec_new, spec_open_list, spec_ordered,
    spec_parse, spec_read, spec_strip, thematic, total_len, wf_spans, Atom, Block, BlockParser,
    Container, Leaf, ListType, Node, ParseState,
};
use crate::span::{sp, Span};
use crate::text::{
    all_ws, char_len_at, has_ws, is_ws_at, lemma_char_len, lemma_nonws_end_after,
    lemma_run_of_bounds, lemma_trim_order, lemma_ws_end_bounds, run_of, trim_range,
    ws_end,
};
use crate::tree::{b_atom, b_enter, b_exit, b_inline, BuilderView, Event, EventKind};
use crate::OrderedListStyle;

verus! {

/// `-`, `*` or `+`.
pub open spec fn is_bullet(b: u8) -> bool {
    b == 0x2d || b == 0x2a || b == 0x2b
}

/// The byte that closes an ordered list marker of style `st`.
pub open spec fn closing(st: OrderedListStyle) -> u8 {
    match st {
        OrderedListStyle::Period => 0x2e,
        _ => 0x29,
    }
}

/// `m` is the marker of a list item of type `ty`: a bullet; a bullet with its
/// task box `[ ]`, `[x]` or `[X]`; a `:`; or an ordered marker, whose digits
/// all belong to its numbering, closed by `.` or `)` (and opened by `(` for
/// the style `(1)`).
pub open spec fn list_marker(ty: ListType, m: Seq<u8>) -> bool {
    match ty {
        ListType::Unordered(c) => is_bullet(c) && m == seq![c],
        ListType::Task => {
            &&& m.len() >= 5
            &&& is_bullet(m[0])
            &&& m[m.len() - 3] == 0x5b
            &&& (m[m.len() - 2] == 0x20 || m[m.len() - 2] == 0x78 || m[m.len() - 2] == 0x58)
            &&& m[m.len() - 1] == 0x5d
        },
        ListType::Description => m == seq![0x3au8],
        ListType::Ordered(num, st) => {
            let o: int = if st == OrderedListStyle::ParenParen { 1 } else { 0 };
            &&& m.len() >= 2 + o
            &&& (st == OrderedListStyle::ParenParen ==> m[0] == 0x28)
            &&& m[m.len() - 1] == closing(st)
            &&& forall|i: int| o <= i < m.len() - 1 ==> in_class(#[trigger] m[i], num)
        },
    }
}

/// The span `x` of a block of kind `k` in the text `s` covers what the kind
/// says: nothing (a paragraph, or a blank line at the end of the text), the
/// newline of a blank line, the `{` that opens attributes, the first `-` or
/// `*` of a thematic break, the `#` characters of a heading, the `|` that opens
/// a table row, the tag of a link definition (after its `[`, before its `]:`)
/// or of a footnote (after its `[^`, before its `]:`), the specifier of a code
/// block or div (without white space or backticks), the `>` of a block quote,
/// or the marker of a list item.
pub open spec fn block_marker(k: Block, s: Seq<u8>, x: Span) -> bool {
    let m = s.subrange(x.start as int, x.end as int);
    &&& x.start <= x.end <= s.len()
    &&& match k {
        Block::Atom(Atom::Blankline) => m.len() == 0 || m == seq![0x0au8],
        Block::Atom(Atom::Attributes) => m.len() >= 1 && m[0] == 0x7b,
        Block::Atom(Atom::ThematicBreak) => m.len() >= 1 && (m[0] == 0x2d || m[0] == 0x2a),
        Block::Leaf(Leaf::Paragraph) => m.len() == 0,
        Block::Leaf(Leaf::Heading) => m.len() >= 1 && forall|i: int|
            0 <= i < m.len() ==> #[trigger] m[i] == 0x23,
        Block::Leaf(Leaf::Table) => m == seq![0x7cu8],
        Block::Leaf(Leaf::LinkDefinition) => {
            &&& 1 <= x.start
            &&& x.end + 2 <= s.len()
            &&& s[x.start - 1] == 0x5b
            &&& s[x.end as int] == 0x5d
            &&& s[x.end + 1] == 0x3a
        },
        Block::Leaf(Leaf::CodeBlock) | Block::Container(Container::Div) => !has_ws(m, 0)
            && !contains_byte(m, 0x60),
        Block::Container(Container::Blockquote) => m == seq![0x3eu8],
        Block::Container(Container::Footnote) => {
            &&& 2 <= x.start
            &&& x.end + 2 <= s.len()
            &&& s[x.start - 2] == 0x5b
            &&& s[x.start - 1] == 0x5e
            &&& s[x.end as int] == 0x5d
            &&& s[x.end + 1] == 0x3a
        },
        Block::Container(Container::List(ty)) | Block::Container(Container::ListItem(ty)) => list_marker(ty, m),
    }
}

pub open spec fn node_block(n: Node) -> Block {
    match n {
        Node::Container(c) => Block::Container(c),
        Node::Leaf(l) => Block::Leaf(l),
    }
}

/// The span of an event of a block covers the block's marker (see
/// `block_marker`); inline events are free.
pub open spec fn event_marked(s: Seq<u8>, e: Event) -> bool {
    match e.kind {
        EventKind::Enter(n) => block_marker(node_block(n), s, e.span),
        EventKind::Exit(n) => block_marker(node_block(n), s, e.span),
        EventKind::Atom(a) => block_marker(Block::Atom(a), s, e.span),
        EventKind::Inline => true,
    }
}

/// Whether `e` enters a list.
pub open spec fn is_list_enter(e: Event) -> bool {
    e.kind matches EventKind::Enter(Node::Container(Container::List(_)))
}

/// The event that must follow `e` where `e` enters a list: the entry of an
/// item of the same type, with the same span.
pub open spec fn first_item(e: Event) -> Event {
    match e.kind {
        EventKind::Enter(Node::Container(Container::List(ty))) => Event {
            kind: EventKind::Enter(Node::Container(Container::ListItem(ty))),
            span: e.span,
        },
        _ => e,
    }
}

/// Every list is entered together with its first item: the next event enters
/// an item of the list's type, and the list's span is that item's marker.
pub open spec fn lists_headed(evs: Seq<Event>) -> bool {
    forall|i: int|
        0 <= i < evs.len() && is_list_enter(#[trigger] evs[i]) ==> i + 1 < evs.len() && evs[i + 1]
            == first_item(evs[i])
}

/// Every event recorded, and every block still open, is marked, and every
/// list is entered together with its first item.
pub open spec fn tree_marked(s: Seq<u8>, b: BuilderView) -> bool {
    &&& forall|i: int| 0 <= i < b.events.len() ==> event_marked(s, #[trigger] b.events[i])
    &&& forall|i: int|
        0 <= i < b.open.len() ==> block_marker(node_block((#[trigger] b.open[i]).0), s, b.open[i].1)
    &&& lists_headed(b.events)
}

// ---------------------------------------------------------------------------
// The first line of a block.

proof fn lemma_class_run_all(t: Seq<u8>, i: int, n: crate::OrderedListNumbering)
    requires
        0 <= i <= t.len(),
    ensures
        forall|j: int| i <= j < i + class_run(t, i, n) ==> in_class(#[trigger] t[j], n),
    decreases t.len() - i,
{
    if 0 <= i < t.len() && in_class(t[i], n) {
        lemma_class_run_all(t, i + 1, n);
    }
}

proof fn lemma_ordered_marks(t: Seq<u8>, start: int, lt: Seq<u8>)
    requires
        0 <= start <= t.len(),
        t.len() <= usize::MAX,
        lt == t.subrange(start, t.len() as int),
        lt.len() >= 1,
        spec_ordered(lt) is Some,
    ensures
        ({
            let (num, st, len) = spec_ordered(lt)->0;
            block_marker(
                Block::Container(Container::ListItem(ListType::Ordered(num, st))),
                t,
                sp(start, start + len),
            )
        }),
{
    let (num, st, len) = spec_ordered(lt)->0;
    let paren = lt[0] == 0x28;
    let i0: int = if paren { 2 } else { 1 };
    let f = lt[i0 - 1];
    let num0 = numbering_of(f)->0;
    lemma_class_run(lt, i0, num0);
    lemma_class_run_all(lt, i0, num0);
    let post = i0 + class_run(lt, i0, num0);
    assert(post < lt.len());
    assert(len == post + 1);
    let m = t.subrange(start, start + len);
    assert(m =~= lt.subrange(0, post + 1));
    assert(in_class(f, num0));
    assert forall|i: int| i0 - 1 <= i < post implies in_class(#[trigger] lt[i], num) by {
        if num != num0 {
            assert(all_roman(lt, i0 - 1, post, num == crate::OrderedListNumbering::RomanUpper));
        }
    }
    let o: int = if st == OrderedListStyle::ParenParen { 1 } else { 0 };
    assert(o == i0 - 1);
    assert forall|i: int| o <= i < m.len() - 1 implies in_class(#[trigger] m[i], num) by {
        assert(m[i] == lt[i]);
    }
}

proof fn lemma_classify_marks(t: Seq<u8>, start: int)
    requires
        0 <= start <= t.len(),
        t.len() <= usize::MAX,
    ensures
        spec_classify(t.subrange(start, t.len() as int), start) matches Some((k, x, _))
            ==> block_marker(k, t, x),
{
    let lt = t.subrange(start, t.len() as int);
    let n = lt.len();
    if let Some((k, x, _)) = spec_classify(lt, start) {
        let m = t.subrange(x.start as int, x.end as int);
        if n == 0 {
        } else {
            let c = lt[0];
            if c == 0x0a {
                assert(m =~= seq![0x0au8]);
            } else if c == 0x23 {
                lemma_run_of_bounds(lt, 0, 0x23);
                let kk = run_of(lt, 0, 0x23);
                if k == Block::Leaf(Leaf::Heading) {
                    assert(kk >= 1);
                    assert forall|i: int| 0 <= i < m.len() implies #[trigger] m[i] == 0x23 by {
                        assert(m[i] == lt[i]);
                    }
                }
            } else if c == 0x3e {
                if k == Block::Container(Container::Blockquote) {
                    assert(m =~= seq![0x3eu8]);
                }
            } else if c == 0x7b {
                if k == Block::Atom(Atom::Attributes) {
                    assert(m[0] == lt[0]);
                }
            } else if c == 0x7c {
                if k == Block::Leaf(Leaf::Table) {
                    assert(m =~= seq![0x7cu8]);
                }
            } else if c == 0x5b {
                lemma_find_close(lt, 1);
                if let Some(j) = find_close(lt, 1) {
                    assert(t[start + j] == lt[j]);
                    assert(t[start + j + 1] == lt[j + 1]);
                    assert(t[start] == lt[0]);
                    assert(t[start + 1] == lt[1]);
                }
            } else if (c == 0x2d || c == 0x2a) && thematic(lt, 1, 1) {
                assert(!is_ws_at(lt, 0));
                assert(ws_end(lt, 0, false) == 0);
                assert(!all_ws(lt));
                lemma_nonws_end_after(lt, 0, 0);
                lemma_trim_order(lt);
                let r = trim_range(lt);
                assert(r.0 == 0);
                assert(m[0] == lt[0]);
            } else if c == 0x2d || c == 0x2a || c == 0x2b {
                if n > 1 {
                    lemma_char_len(lt, 1);
                }
                if k == Block::Container(Container::ListItem(ListType::Task)) {
                    let p = 1 + char_len_at(lt, 1);
                    assert(m =~= lt.subrange(0, p + 3));
                } else if k == Block::Container(Container::ListItem(ListType::Unordered(c))) {
                    assert(m =~= seq![c]);
                }
            } else if c == 0x3a && (n == 1 || is_ws_at(lt, 1)) {
                assert(m =~= seq![0x3au8]);
            } else if c == 0x60 || c == 0x3a || c == 0x7e {
                lemma_run_of_bounds(lt, 1, c);
                let fl = 1 + run_of(lt, 1, c);
                let rest = lt.subrange(fl, n as int);
                lemma_trim_order(rest);
                let r = trim_range(rest);
                if k != Block::Leaf(Leaf::Paragraph) {
                    assert(m =~= rest.subrange(r.0, r.1));
                }
            } else {
                if spec_ordered(lt) is Some {
                    lemma_ordered_marks(t, start, lt);
                }
            }
        }
    }
}

/// The span that reading a line gives covers the marker of the block it
/// starts.
pub proof fn lemma_new_marks(t: Seq<u8>)
    requires
        t.len() <= usize::MAX,
    ensures
        spec_new(t) matches Some(p) ==> block_marker(p.kind, t, p.span),
{
    lemma_ws_end_bounds(t, 0, true);
    let start = ws_end(t, 0, true);
    lemma_classify_marks(t, start);
}


// ---------------------------------------------------------------------------
// The blocks of a document.

/// A marker read within a line is a marker at the same place in the text that
/// holds the line.
proof fn lemma_marker_shift(k: Block, s: Seq<u8>, a: int, b: int, x: Span)
    requires
        0 <= a <= b <= s.len(),
        s.len() <= usize::MAX,
        block_marker(k, s.subrange(a, b), x),
    ensures
        block_marker(k, s, sp(x.start + a, x.end + a)),
{
    let t = s.subrange(a, b);
    let y = sp(x.start + a, x.end + a);
    assert(s.subrange(y.start as int, y.end as int) =~= t.subrange(x.start as int, x.end as int));
    if x.start >= 1 {
        assert(s[y.start - 1] == t[x.start - 1]);
    }
    if x.start >= 2 {
        assert(s[y.start - 2] == t[x.start - 2]);
    }
    if x.end + 2 <= t.len() {
        assert(s[y.end as int] == t[x.end as int]);
        assert(s[y.end + 1] == t[x.end + 1]);
    }
}

/// The span of a block, read from its first line, covers its marker.
proof fn lemma_block_span_marks(s: Seq<u8>, ls: Seq<Span>, p: BlockParser)
    requires
        ls.len() >= 1,
        s.len() <= usize::MAX,
        wf_spans(s, ls),
        cut(s, ls[0]) is Some,
        spec_new(s.subrange(ls[0].start as int, ls[0].end as int)) == Some(p),
    ensures
        block_marker(p.kind, s, block_span(ls, p)),
{
    let t = s.subrange(ls[0].start as int, ls[0].end as int);
    lemma_new_marks(t);
    lemma_marker_shift(p.kind, s, ls[0].start as int, ls[0].end as int, p.span);
}

proof fn lemma_headed_push(evs: Seq<Event>, e: Event)
    requires
        lists_headed(evs),
        !is_list_enter(e),
    ensures
        lists_headed(evs.push(e)),
{
    let evs2 = evs.push(e);
    assert forall|i: int| 0 <= i < evs2.len() && is_list_enter(#[trigger] evs2[i]) implies i + 1
        < evs2.len() && evs2[i + 1] == first_item(evs2[i]) by {
        assert(i < evs.len());
        assert(evs2[i] == evs[i]);
        assert(evs2[i + 1] == evs[i + 1]);
    }
}

/// A list entered together with its first item.
proof fn lemma_open_list_marks(s: Seq<u8>, b: BuilderView, ty: ListType, x: Span)
    requires
        tree_marked(s, b),
        block_marker(Block::Container(Container::ListItem(ty)), s, x),
    ensures
        tree_marked(
            s,
            b_enter(
                b_enter(b, Node::Container(Container::List(ty)), x),
                Node::Container(Container::ListItem(ty)),
                x,
            ),
        ),
{
    let b1 = b_enter(b, Node::Container(Container::List(ty)), x);
    let b2 = b_enter(b1, Node::Container(Container::ListItem(ty)), x);
    let n = b.events.len();
    assert(b2.events.len() == n + 2);
    assert forall|i: int| 0 <= i < b2.events.len() && is_list_enter(#[trigger] b2.events[i]) implies i
        + 1 < b2.events.len() && b2.events[i + 1] == first_item(b2.events[i]) by {
        if i < n {
            assert(b2.events[i] == b.events[i]);
            assert(b2.events[i + 1] == b.events[i + 1]);
        } else {
            assert(i == n);
        }
    }
    assert forall|i: int| 0 <= i < b2.events.len() implies event_marked(s, #[trigger] b2.events[i]) by {
        if i < n {
            assert(b2.events[i] == b.events[i]);
        }
    }
    assert forall|i: int| 0 <= i < b2.open.len() implies block_marker(
        node_block((#[trigger] b2.open[i]).0),
        s,
        b2.open[i].1,
    ) by {
        if i < b.open.len() {
            assert(b2.open[i] == b.open[i]);
        }
    }
}

proof fn lemma_enter_marks(s: Seq<u8>, b: BuilderView, n: Node, x: Span)
    requires
        tree_marked(s, b),
        block_marker(node_block(n), s, x),
        !(n matches Node::Container(Container::List(_))),
    ensures
        tree_marked(s, b_enter(b, n, x)),
{
    let b2 = b_enter(b, n, x);
    lemma_headed_push(b.events, Event { kind: EventKind::Enter(n), span: x });
    assert forall|i: int| 0 <= i < b2.events.len() implies event_marked(s, #[trigger] b2.events[i]) by {
        if i < b.events.len() {
            assert(b2.events[i] == b.events[i]);
        }
    }
    assert forall|i: int| 0 <= i < b2.open.len() implies block_marker(
        node_block((#[trigger] b2.open[i]).0),
        s,
        b2.open[i].1,
    ) by {
        if i < b.open.len() {
            assert(b2.open[i] == b.open[i]);
        }
    }
}

proof fn lemma_exit_marks(s: Seq<u8>, b: BuilderView)
    requires
        tree_marked(s, b),
    ensures
        tree_marked(s, b_exit(b)),
{
    if b.open.len() > 0 {
        let b2 = b_exit(b);
        let top = b.open[b.open.len() - 1];
        assert(block_marker(node_block(top.0), s, top.1));
        lemma_headed_push(b.events, Event { kind: EventKind::Exit(top.0), span: top.1 });
        assert forall|i: int| 0 <= i < b2.events.len() implies event_marked(s, #[trigger] b2.events[i]) by {
            if i < b.events.len() {
                assert(b2.events[i] == b.events[i]);
            }
        }
        assert forall|i: int| 0 <= i < b2.open.len() implies block_marker(
            node_block((#[trigger] b2.open[i]).0),
            s,
            b2.open[i].1,
        ) by {
            assert(b2.open[i] == b.open[i]);
        }
    }
}

proof fn lemma_atom_marks(s: Seq<u8>, b: BuilderView, a: Atom, x: Span)
    requires
        tree_marked(s, b),
        block_marker(Block::Atom(a), s, x),
    ensures
        tree_marked(s, b_atom(b, a, x)),
{
    let b2 = b_atom(b, a, x);
    lemma_headed_push(b.events, Event { kind: EventKind::Atom(a), span: x });
    assert forall|i: int| 0 <= i < b2.events.len() implies event_marked(s, #[trigger] b2.events[i]) by {
        if i < b.events.len() {
            assert(b2.events[i] == b.events[i]);
        }
    }
}

proof fn lemma_inlines_marks(s: Seq<u8>, st: ParseState, xs: Seq<Span>)
    requires
        tree_marked(s, st.tree),
    ensures
        tree_marked(s, ps_inlines(st, xs).tree),
    decreases xs.len(),
{
    if xs.len() > 0 {
        let b2 = b_inline(st.tree, xs[0]);
        lemma_headed_push(st.tree.events, Event { kind: EventKind::Inline, span: xs[0] });
        assert forall|i: int| 0 <= i < b2.events.len() implies event_marked(s, #[trigger] b2.events[i]) by {
            if i < st.tree.events.len() {
                assert(b2.events[i] == st.tree.events[i]);
            }
        }
        lemma_inlines_marks(s, ParseState { tree: b2, lists: st.lists }, xs.drop_first());
    }
}

proof fn lemma_exit_n_marks(s: Seq<u8>, b: BuilderView, n: nat)
    requires
        tree_marked(s, b),
    ensures
        tree_marked(s, exit_n(b, n)),
    decreases n,
{
    if n > 0 {
        lemma_exit_marks(s, b);
        lemma_exit_n_marks(s, b_exit(b), (n - 1) as nat);
    }
}

/// A block keeps every event marked.
pub proof fn lemma_block_marks(s: Seq<u8>, ls: Seq<Span>, st: ParseState)
    requires
        tree_marked(s, st.tree),
    ensures
        spec_block(s, ls, st) matches Some((st2, _)) ==> tree_marked(s, st2.tree),
    decreases total_len(ls), 0int, 0int,
{
    if ls.len() > 0 && s.len() <= usize::MAX && wf_spans(s, ls) {
        if let Some((p, lc)) = spec_read(cut_lines(s, ls)) {
            lemma_read_count(cut_lines(s, ls));
            assert(cut_lines(s, ls)[0] == cut(s, ls[0]));
            lemma_block_span_marks(s, ls, p);
            lemma_new_facts(s.subrange(ls[0].start as int, ls[0].end as int));
            lemma_block_lines(ls, p, lc);
            let span = block_span(ls, p);
            let ls3 = block_lines(ls, p, lc);
            match p.kind {
                Block::Atom(a) => {
                    lemma_atom_marks(s, st.tree, a, span);
                },
                Block::Leaf(lf) => {
                    if let Some(inl) = spec_leaf_lines(s, lf, ls3) {
                        lemma_enter_marks(s, st.tree, Node::Leaf(lf), span);
                        let st1 = ps_enter(st, Node::Leaf(lf), span);
                        lemma_inlines_marks(s, st1, inl);
                        lemma_exit_marks(s, ps_inlines(st1, inl).tree);
                    }
                },
                Block::Container(c) => {
                    let skip_chars: int = match c {
                        Container::Blockquote => 2,
                        Container::Div => 0,
                        _ => p.indent as int,
                    };
                    let inner: int = if c == Container::Div {
                        ls3.len() - 1
                    } else {
                        ls3.len() as int
                    };
                    let quote = c == Container::Blockquote;
                    if let Some(ls4) = spec_strip(s, ls3, skip_chars, quote) {
                        lemma_block_shrinks(s, ls, p, lc, skip_chars, quote, ls4, inner);
                        lemma_container_marks(s, c, span, ls4.subrange(0, inner), st);
                    }
                },
            }
        }
    }
}

/// A container keeps every event marked.
pub proof fn lemma_container_marks(s: Seq<u8>, c: Container, x: Span, ls: Seq<Span>, st: ParseState)
    requires
        tree_marked(s, st.tree),
        block_marker(Block::Container(c), s, x),
        !(c is List),
    ensures
        spec_container(s, c, x, ls, st) matches Some(st2) ==> tree_marked(s, st2.tree),
    decreases total_len(ls), 2int, 0int,
{
    if let Some(st1) = spec_open_list(st, c, x) {
        let st2 = ps_enter(st1, Node::Container(c), x);
        assert(tree_marked(s, st2.tree)) by {
            if let Container::ListItem(ty) = c {
                if st.lists.len() == 0 || st.lists.last().depth < st.tree.open.len() {
                    lemma_open_list_marks(s, st.tree, ty, x);
                } else if st.lists.last().depth == st.tree.open.len() && st.lists.last().ty != ty {
                    lemma_exit_marks(s, st.tree);
                    lemma_open_list_marks(s, b_exit(st.tree), ty, x);
                } else {
                    lemma_enter_marks(s, st1.tree, Node::Container(c), x);
                }
            } else {
                lemma_enter_marks(s, st1.tree, Node::Container(c), x);
            }
        }
        lemma_total_nonneg(ls);
        lemma_blocks_marks(s, ls, st2);
        if let Some(st3) = spec_blocks(s, ls, st2) {
            if let Some(st4) = spec_close_list(st3) {
                assert(tree_marked(s, st4.tree)) by {
                    lemma_exit_marks(s, st3.tree);
                }
                lemma_exit_marks(s, st4.tree);
            }
        }
    }
}

/// Blocks one after the other keep every event marked.
pub proof fn lemma_blocks_marks(s: Seq<u8>, ls: Seq<Span>, st: ParseState)
    requires
        tree_marked(s, st.tree),
    ensures
        spec_blocks(s, ls, st) matches Some(st2) ==> tree_marked(s, st2.tree),
    decreases total_len(ls), 1int, ls.len(),
{
    if ls.len() > 0 {
        lemma_block_marks(s, ls, st);
        if let Some((st2, c)) = spec_block(s, ls, st) {
            if !(c <= 0 || c >= ls.len()) {
                lemma_total_split(ls, c);
                lemma_blocks_marks(s, ls.subrange(c, ls.len() as int), st2);
            }
        }
    }
}

/// The span of every event of a parse covers what its kind says (see
/// `block_marker`): the `#` characters of a heading, the `>` of a block quote,
/// the first `|` of a table row, the tag of a link definition or footnote, the
/// specifier of a code block or div, the marker of a list item. A list is
/// entered together with its first item, whose marker is the list's span.
pub proof fn lemma_parse_marks(s: Seq<u8>)
    requires
        spec_parse(s) is Some,
    ensures
        forall|i: int|
            0 <= i < spec_parse(s)->0.len() ==> event_marked(s, #[trigger] spec_parse(s)->0[i]),
        lists_headed(spec_parse(s)->0),
{
    let st0 = init_state();
    lemma_blocks_marks(s, spec_lines(s), st0);
    let st = spec_blocks(s, spec_lines(s), st0)->0;
    lemma_exit_n_marks(s, st.tree, st.lists.len());
}

} // verus!
