//! Laws of the block tree: a parse yields well-nested events whose spans lie in
//! the source, whose list items sit directly in lists of their type and whose
//! leaf text is trimmed outside code blocks; each block leaves the open blocks
//! and lists as they were, opens exactly one list, or replaces the innermost
//! open list by a new one, the open lists nesting strictly one in the other.
use vstd::prelude::*;
use crate::block::{
    block_lines, block_span, cut, cut_lines, exit_n, init_state, lemma_block_lines,
    lemma_block_shrinks, lemma_new_facts, lemma_read_count, lemma_total_nonneg,
    lemma_total_split, ps_atom, ps_enter, ps_exit, ps_inlines, spec_block, spec_blocks,
    enter_list, spec_close_list, spec_container, spec_leaf_lines, spec_lines, spec_new, spec_open_list,
    spec_parse, spec_read, spec_strip, span_in, trim_end_of, trim_start_of, trim_starts,
    wf_spans, lemma_lines_structure, total_len, Block, Container, Leaf, ListType, Node, ParseState,
};
use crate::span::Span;
use crate::text::{
    is_ws_at, lemma_nonws_end_bounds, lemma_nonws_end_prefix, lemma_ws_end_bounds, trim_end_pos, ws_end,
};
use crate::tree::{b_exit, b_inline, in_leaf, lemma_replay_push, replay, well_nested, Event, EventKind};

verus! {

/// No newline in span `x` but possibly its last byte: `x` lies within one line.
pub open spec fn one_line(s: Seq<u8>, x: Span) -> bool {
    forall|j: int| x.start <= j < x.end - 1 ==> #[trigger] s[j] != 0x0a
}

/// Every span lies within one line.
pub open spec fn single_lines(s: Seq<u8>, ls: Seq<Span>) -> bool {
    forall|i: int| 0 <= i < ls.len() ==> one_line(s, #[trigger] ls[i])
}

/// Every inline event lies within one line.
pub open spec fn inlines_single(s: Seq<u8>, evs: Seq<Event>) -> bool {
    forall|i: int| 0 <= i < evs.len() && (#[trigger] evs[i]).kind is Inline ==> one_line(s, evs[i].span)
}

/// No leaf among the open blocks.
pub open spec fn no_leaf_open(open: Seq<(Node, Span)>) -> bool {
    forall|i: int| 0 <= i < open.len() ==> !(#[trigger] open[i].0 is Leaf)
}

/// Every open list is an open block: the block at its depth is a list of its
/// type; and the open lists lie strictly deeper one after the other.
pub open spec fn lists_open_ok(st: ParseState) -> bool {
    &&& forall|i: int|
        0 <= i < st.lists.len() ==> 1 <= (#[trigger] st.lists[i]).depth <= st.tree.open.len()
            && st.tree.open[st.lists[i].depth - 1].0 == Node::Container(Container::List(st.lists[i].ty))
    &&& forall|i: int, j: int|
        0 <= i < j < st.lists.len() ==> (#[trigger] st.lists[i]).depth < (#[trigger] st.lists[j]).depth
}

/// Every list item is entered directly inside a list of its type: the
/// innermost block open before its entry is that list.
pub open spec fn items_in_lists(evs: Seq<Event>) -> bool {
    forall|i: int|
        0 <= i < evs.len() && (#[trigger] item_type(evs[i])) is Some ==> top_is_list(
            evs.subrange(0, i),
            item_type(evs[i])->0,
        )
}

/// The type of the list item that `e` enters, if it enters one.
pub open spec fn item_type(e: Event) -> Option<ListType> {
    match e.kind {
        EventKind::Enter(Node::Container(Container::ListItem(ty))) => Some(ty),
        _ => None,
    }
}

/// Whether the events replay to open blocks whose innermost is a list of type `ty`.
pub open spec fn top_is_list(evs: Seq<Event>, ty: ListType) -> bool {
    match replay(evs) {
        Some(o) => o.len() > 0 && o.last().0 == Node::Container(Container::List(ty)),
        None => false,
    }
}

/// The leaf that is the innermost open block after the events, where they
/// replay and it is one.
pub open spec fn open_leaf(evs: Seq<Event>) -> Option<Leaf> {
    match replay(evs) {
        Some(o) => if o.len() > 0 && o.last().0 is Leaf {
            Some(o.last().0->Leaf_0)
        } else {
            None
        },
        None => None,
    }
}

/// The text of span `x` is empty or does not start with white space.
pub open spec fn starts_clean(s: Seq<u8>, x: Span) -> bool {
    x.start == x.end || !is_ws_at(s.subrange(x.start as int, x.end as int), 0)
}

/// The inline events of every leaf but a code block start without white
/// space.
pub open spec fn inlines_trimmed(s: Seq<u8>, evs: Seq<Event>) -> bool {
    forall|i: int|
        0 <= i < evs.len() && (#[trigger] evs[i]).kind is Inline && open_leaf(evs.subrange(0, i))
            != Some(Leaf::CodeBlock) ==> starts_clean(s, evs[i].span)
}

/// The text of span `x` does not end with white space.
pub open spec fn ends_clean(s: Seq<u8>, x: Span) -> bool {
    trim_end_pos(s.subrange(x.start as int, x.end as int)) == x.end - x.start
}

/// Whether `e` exits a leaf other than a code block.
pub open spec fn closes_text_leaf(e: Event) -> bool {
    match e.kind {
        EventKind::Exit(Node::Leaf(lf)) => lf != Leaf::CodeBlock,
        _ => false,
    }
}

/// The last inline event of every leaf but a code block ends without white
/// space.
pub open spec fn leaves_end_clean(s: Seq<u8>, evs: Seq<Event>) -> bool {
    forall|i: int|
        1 <= i < evs.len() && closes_text_leaf(#[trigger] evs[i]) && evs[i - 1].kind is Inline
            ==> ends_clean(s, evs[i - 1].span)
}

proof fn lemma_ends_push(s: Seq<u8>, evs: Seq<Event>, e: Event)
    requires
        leaves_end_clean(s, evs),
        (closes_text_leaf(e) && evs.len() > 0 && evs.last().kind is Inline) ==> ends_clean(
            s,
            evs.last().span,
        ),
    ensures
        leaves_end_clean(s, evs.push(e)),
{
    let e2 = evs.push(e);
    assert forall|i: int|
        1 <= i < e2.len() && closes_text_leaf(#[trigger] e2[i]) && e2[i - 1].kind is Inline implies ends_clean(
            s,
            e2[i - 1].span,
        ) by {
        assert(e2[i - 1] == evs[i - 1]);
        if i < evs.len() {
            assert(e2[i] == evs[i]);
        }
    }
}

/// Pushing an event that is not inline keeps the inline events trimmed.
proof fn lemma_trimmed_push(s: Seq<u8>, evs: Seq<Event>, e: Event)
    requires
        inlines_trimmed(s, evs),
        !(e.kind is Inline),
    ensures
        inlines_trimmed(s, evs.push(e)),
{
    let e2 = evs.push(e);
    assert forall|i: int|
        0 <= i < e2.len() && (#[trigger] e2[i]).kind is Inline && open_leaf(e2.subrange(0, i))
            != Some(Leaf::CodeBlock) implies starts_clean(s, e2[i].span) by {
        assert(i < evs.len());
        assert(e2[i] == evs[i]);
        assert(e2.subrange(0, i) =~= evs.subrange(0, i));
    }
}

/// What holds of the parser's state between blocks: its events replay to its
/// open blocks, none of which is a leaf; every span it recorded lies in the
/// source; every open list is an open list block, the open lists nested
/// strictly one in the other; every inline event lies within one line, and
/// outside code blocks starts without white space, the last one of each leaf
/// ending without; and every list item was entered directly inside a list of
/// its type.
pub open spec fn state_ok(s: Seq<u8>, st: ParseState) -> bool {
    &&& replay(st.tree.events) == Some(st.tree.open)
    &&& no_leaf_open(st.tree.open)
    &&& forall|i: int| 0 <= i < st.tree.events.len() ==> span_in(s, #[trigger] st.tree.events[i].span)
    &&& forall|i: int| 0 <= i < st.tree.open.len() ==> span_in(s, #[trigger] st.tree.open[i].1)
    &&& lists_open_ok(st)
    &&& inlines_single(s, st.tree.events)
    &&& items_in_lists(st.tree.events)
    &&& inlines_trimmed(s, st.tree.events)
    &&& leaves_end_clean(s, st.tree.events)
}

/// Pushing an event that enters no list item keeps every list item inside a
/// list.
proof fn lemma_items_push(evs: Seq<Event>, e: Event)
    requires
        items_in_lists(evs),
        item_type(e) is None,
    ensures
        items_in_lists(evs.push(e)),
{
    let e2 = evs.push(e);
    assert forall|i: int|
        0 <= i < e2.len() && (#[trigger] item_type(e2[i])) is Some implies top_is_list(
            e2.subrange(0, i),
            item_type(e2[i])->0,
        ) by {
        assert(i < evs.len());
        assert(e2[i] == evs[i]);
        assert(e2.subrange(0, i) =~= evs.subrange(0, i));
    }
}

/// Entering a list item whose list is the innermost open block keeps every
/// list item inside a list.
proof fn lemma_items_push_item(evs: Seq<Event>, open: Seq<(Node, Span)>, ty: ListType, x: Span)
    requires
        items_in_lists(evs),
        replay(evs) == Some(open),
        open.len() > 0,
        open.last().0 == Node::Container(Container::List(ty)),
    ensures
        items_in_lists(
            evs.push(Event { kind: EventKind::Enter(Node::Container(Container::ListItem(ty))), span: x }),
        ),
{
    let e = Event { kind: EventKind::Enter(Node::Container(Container::ListItem(ty))), span: x };
    let e2 = evs.push(e);
    assert forall|i: int|
        0 <= i < e2.len() && (#[trigger] item_type(e2[i])) is Some implies top_is_list(
            e2.subrange(0, i),
            item_type(e2[i])->0,
        ) by {
        if i < evs.len() {
            assert(e2.subrange(0, i) =~= evs.subrange(0, i));
            assert(e2[i] == evs[i]);
        } else {
            assert(e2.subrange(0, i) =~= evs);
        }
    }
}

/// `st2` has the same open blocks and open lists as `st`.
pub open spec fn same_frame(st: ParseState, st2: ParseState) -> bool {
    st2.tree.open == st.tree.open && st2.lists == st.lists
}

/// `st2` has one more open block than `st`, a list that it also records as
/// open at that depth; which `st` allowed, having no open list as deep as its
/// current depth.
pub open spec fn pushed_frame(st: ParseState, st2: ParseState) -> bool {
    &&& (st.lists.len() == 0 || st.lists.last().depth < st.tree.open.len())
    &&& st2.tree.open.len() == st.tree.open.len() + 1
    &&& st2.tree.open.drop_last() == st.tree.open
    &&& st2.lists.len() == st.lists.len() + 1
    &&& st2.lists.drop_last() == st.lists
    &&& st2.lists.last().depth == st2.tree.open.len()
}

/// `st2` has the same number of open blocks and open lists as `st`, whose
/// innermost open list was its innermost open block; in `st2` that list is
/// replaced by another one, again the innermost open block.
pub open spec fn switched_frame(st: ParseState, st2: ParseState) -> bool {
    &&& st.lists.len() > 0
    &&& st.tree.open.len() > 0
    &&& st.lists.last().depth == st.tree.open.len()
    &&& st2.tree.open.len() == st.tree.open.len()
    &&& st2.tree.open.drop_last() == st.tree.open.drop_last()
    &&& st2.lists.len() == st.lists.len()
    &&& st2.lists.drop_last() == st.lists.drop_last()
    &&& st2.lists.last().depth == st2.tree.open.len()
}

/// How a block may change the open blocks and lists: not at all, by opening
/// one list, or by replacing the innermost open list with a new one.
pub open spec fn frame(st: ParseState, st2: ParseState) -> bool {
    same_frame(st, st2) || pushed_frame(st, st2) || switched_frame(st, st2)
}

proof fn lemma_frame_compose(a: ParseState, b: ParseState, c: ParseState)
    requires
        frame(a, b),
        frame(b, c),
    ensures
        frame(a, c),
{
}

/// Entering a block that is not a leaf keeps the state good; a list item must
/// be entered directly inside a list of its type.
proof fn lemma_enter(s: Seq<u8>, st: ParseState, n: Node, x: Span)
    requires
        state_ok(s, st),
        !(n is Leaf),
        span_in(s, x),
        n matches Node::Container(Container::ListItem(ty)) ==> st.tree.open.len() > 0
            && st.tree.open.last().0 == Node::Container(Container::List(ty)),
    ensures
        state_ok(s, ps_enter(st, n, x)),
        ps_enter(st, n, x).tree.open == st.tree.open.push((n, x)),
        ps_enter(st, n, x).lists == st.lists,
{
    let e = Event { kind: EventKind::Enter(n), span: x };
    lemma_replay_push(st.tree.events, e);
    let st2 = ps_enter(st, n, x);
    assert forall|i: int| 0 <= i < st2.tree.open.len() implies !(#[trigger] st2.tree.open[i].0 is Leaf) by {
        if i < st.tree.open.len() {
            assert(st2.tree.open[i] == st.tree.open[i]);
        }
    }
    assert forall|i: int| 0 <= i < st2.tree.events.len() implies span_in(s, #[trigger] st2.tree.events[i].span) by {
        if i < st.tree.events.len() {
            assert(st2.tree.events[i] == st.tree.events[i]);
        }
    }
    assert forall|i: int| 0 <= i < st2.tree.open.len() implies span_in(s, #[trigger] st2.tree.open[i].1) by {
        if i < st.tree.open.len() {
            assert(st2.tree.open[i] == st.tree.open[i]);
        }
    }
    assert forall|i: int| 0 <= i < st2.lists.len() implies 1 <= (#[trigger] st2.lists[i]).depth <= st2.tree.open.len()
        && st2.tree.open[st2.lists[i].depth - 1].0 == Node::Container(Container::List(st2.lists[i].ty)) by {
        assert(st2.lists[i] == st.lists[i]);
        assert(st2.tree.open[st.lists[i].depth - 1] == st.tree.open[st.lists[i].depth - 1]);
    }
    if let Node::Container(Container::ListItem(ty)) = n {
        lemma_items_push_item(st.tree.events, st.tree.open, ty, x);
    } else {
        lemma_items_push(st.tree.events, e);
    }
    lemma_trimmed_push(s, st.tree.events, e);
    lemma_ends_push(s, st.tree.events, e);
    assert forall|i: int| 0 <= i < st2.tree.events.len() && (#[trigger] st2.tree.events[i]).kind is Inline implies one_line(s, st2.tree.events[i].span) by {
        assert(st2.tree.events[i] == st.tree.events[i]);
    }
}

/// Exiting the innermost open block records its exit, and the events replay to
/// the blocks that stay open.
proof fn lemma_exit(s: Seq<u8>, st: ParseState)
    requires
        replay(st.tree.events) == Some(st.tree.open),
        st.tree.open.len() > 0,
        forall|i: int| 0 <= i < st.tree.events.len() ==> span_in(s, #[trigger] st.tree.events[i].span),
        forall|i: int| 0 <= i < st.tree.open.len() ==> span_in(s, #[trigger] st.tree.open[i].1),
        inlines_single(s, st.tree.events),
        items_in_lists(st.tree.events),
        inlines_trimmed(s, st.tree.events),
        leaves_end_clean(s, st.tree.events),
        (st.tree.open.last().0 is Leaf && st.tree.open.last().0 != Node::Leaf(Leaf::CodeBlock)
            && st.tree.events.len() > 0 && st.tree.events.last().kind is Inline) ==> ends_clean(
            s,
            st.tree.events.last().span,
        ),
    ensures
        inlines_single(s, ps_exit(st).tree.events),
        items_in_lists(ps_exit(st).tree.events),
        inlines_trimmed(s, ps_exit(st).tree.events),
        leaves_end_clean(s, ps_exit(st).tree.events),
        ps_exit(st).tree.open == st.tree.open.drop_last(),
        ps_exit(st).lists == st.lists,
        replay(ps_exit(st).tree.events) == Some(ps_exit(st).tree.open),
        forall|i: int| 0 <= i < ps_exit(st).tree.events.len() ==> span_in(s, #[trigger] ps_exit(st).tree.events[i].span),
        forall|i: int| 0 <= i < ps_exit(st).tree.open.len() ==> span_in(s, #[trigger] ps_exit(st).tree.open[i].1),
{
    let top = st.tree.open.last();
    let e = Event { kind: EventKind::Exit(top.0), span: top.1 };
    lemma_replay_push(st.tree.events, e);
    lemma_items_push(st.tree.events, e);
    lemma_trimmed_push(s, st.tree.events, e);
    lemma_ends_push(s, st.tree.events, e);
    let st2 = ps_exit(st);
    assert(st2.tree.events == st.tree.events.push(e));
    assert forall|i: int| 0 <= i < st2.tree.events.len() implies span_in(s, #[trigger] st2.tree.events[i].span) by {
        if i < st.tree.events.len() {
            assert(st2.tree.events[i] == st.tree.events[i]);
        } else {
            assert(span_in(s, st.tree.open[st.tree.open.len() - 1].1));
        }
    }
    assert forall|i: int| 0 <= i < st2.tree.open.len() implies span_in(s, #[trigger] st2.tree.open[i].1) by {
        assert(st2.tree.open[i] == st.tree.open[i]);
    }
    assert forall|i: int| 0 <= i < st2.tree.events.len() && (#[trigger] st2.tree.events[i]).kind is Inline implies one_line(s, st2.tree.events[i].span) by {
        assert(st2.tree.events[i] == st.tree.events[i]);
    }
}

/// Inline events inside an open leaf keep the events replaying to the same
/// open blocks.
proof fn lemma_inlines(s: Seq<u8>, st: ParseState, xs: Seq<Span>)
    requires
        replay(st.tree.events) == Some(st.tree.open),
        in_leaf(st.tree.open),
        forall|i: int| 0 <= i < st.tree.events.len() ==> span_in(s, #[trigger] st.tree.events[i].span),
        wf_spans(s, xs),
        inlines_single(s, st.tree.events),
        single_lines(s, xs),
        items_in_lists(st.tree.events),
        inlines_trimmed(s, st.tree.events),
        st.tree.open.last().0 != Node::Leaf(Leaf::CodeBlock) ==> forall|i: int|
            0 <= i < xs.len() ==> starts_clean(s, #[trigger] xs[i]),
        leaves_end_clean(s, st.tree.events),
    ensures
        inlines_single(s, ps_inlines(st, xs).tree.events),
        items_in_lists(ps_inlines(st, xs).tree.events),
        inlines_trimmed(s, ps_inlines(st, xs).tree.events),
        leaves_end_clean(s, ps_inlines(st, xs).tree.events),
        xs.len() > 0 ==> ps_inlines(st, xs).tree.events.len() > 0 && ps_inlines(st, xs).tree.events.last()
            == (Event { kind: EventKind::Inline, span: xs.last() }),
        xs.len() == 0 ==> ps_inlines(st, xs) == st,
        ps_inlines(st, xs).tree.open == st.tree.open,
        ps_inlines(st, xs).lists == st.lists,
        replay(ps_inlines(st, xs).tree.events) == Some(st.tree.open),
        forall|i: int| 0 <= i < ps_inlines(st, xs).tree.events.len() ==> span_in(s, #[trigger] ps_inlines(st, xs).tree.events[i].span),
    decreases xs.len(),
{
    if xs.len() > 0 {
        let e = Event { kind: EventKind::Inline, span: xs[0] };
        lemma_replay_push(st.tree.events, e);
        lemma_items_push(st.tree.events, e);
        lemma_ends_push(s, st.tree.events, e);
        let evs2 = st.tree.events.push(e);
        assert(inlines_trimmed(s, evs2)) by {
            assert forall|i: int|
                0 <= i < evs2.len() && (#[trigger] evs2[i]).kind is Inline && open_leaf(evs2.subrange(0, i))
                    != Some(Leaf::CodeBlock) implies starts_clean(s, evs2[i].span) by {
                if i < st.tree.events.len() {
                    assert(evs2[i] == st.tree.events[i]);
                    assert(evs2.subrange(0, i) =~= st.tree.events.subrange(0, i));
                } else {
                    assert(evs2.subrange(0, i) =~= st.tree.events);
                }
            }
        }
        assert forall|i: int| 0 <= i < xs.drop_first().len() && st.tree.open.last().0 != Node::Leaf(
            Leaf::CodeBlock) implies starts_clean(s, #[trigger] xs.drop_first()[i]) by {
            assert(xs.drop_first()[i] == xs[i + 1]);
        }
        let st1 = ParseState { tree: b_inline(st.tree, xs[0]), lists: st.lists };
        assert(span_in(s, xs[0]));
        assert forall|i: int| 0 <= i < st1.tree.events.len() implies span_in(s, #[trigger] st1.tree.events[i].span) by {
            if i < st.tree.events.len() {
                assert(st1.tree.events[i] == st.tree.events[i]);
            }
        }
        assert forall|i: int| 0 <= i < xs.drop_first().len() implies span_in(s, #[trigger] xs.drop_first()[i]) by {
            assert(xs.drop_first()[i] == xs[i + 1]);
        }
        assert forall|i: int| 0 <= i < xs.drop_first().len() implies one_line(s, #[trigger] xs.drop_first()[i]) by {
            assert(xs.drop_first()[i] == xs[i + 1]);
        }
        assert(one_line(s, xs[0]));
        assert forall|i: int| 0 <= i < st1.tree.events.len() && (#[trigger] st1.tree.events[i]).kind is Inline implies one_line(s, st1.tree.events[i].span) by {
            if i < st.tree.events.len() {
                assert(st1.tree.events[i] == st.tree.events[i]);
            }
        }
        lemma_inlines(s, st1, xs.drop_first());
    }
}


/// The inline lines of a leaf lie within its lines.
pub proof fn lemma_leaf_lines_in(s: Seq<u8>, lf: Leaf, ls: Seq<Span>)
    requires
        ls.len() >= 1,
        wf_spans(s, ls),
        s.len() <= usize::MAX,
        spec_leaf_lines(s, lf, ls) is Some,
        single_lines(s, ls),
    ensures
        wf_spans(s, spec_leaf_lines(s, lf, ls)->0),
        single_lines(s, spec_leaf_lines(s, lf, ls)->0),
{
    let n = ls.len();
    assert forall|i: int| 0 <= i < n implies span_in(s, #[trigger] trim_start_of(s, ls[i])) && one_line(s, trim_start_of(s, ls[i])) by {
        assert(span_in(s, ls[i]));
        assert(one_line(s, ls[i]));
        lemma_ws_end_bounds(s.subrange(ls[i].start as int, ls[i].end as int), 0, false);
    }
    let trimmed = if lf == Leaf::CodeBlock {
        ls.update(0, trim_start_of(s, ls[0]))
    } else {
        let a = trim_starts(s, ls);
        let last = a[n - 1];
        assert(a[n - 1] == trim_start_of(s, ls[n - 1]));
        assert(span_in(s, last));
        lemma_nonws_end_bounds(s.subrange(last.start as int, last.end as int), 0, 0);
        a.update(n - 1, trim_end_of(s, last))
    };
    assert(wf_spans(s, trimmed) && single_lines(s, trimmed)) by {
        assert forall|i: int| 0 <= i < trimmed.len() implies span_in(s, #[trigger] trimmed[i]) && one_line(s, trimmed[i]) by {
            if lf != Leaf::CodeBlock && i < n - 1 {
                assert(trimmed[i] == trim_start_of(s, ls[i]));
            }
            if lf == Leaf::CodeBlock && i > 0 {
                assert(trimmed[i] == ls[i]);
            }
        }
    }
    let r = spec_leaf_lines(s, lf, ls)->0;
    assert forall|i: int| 0 <= i < r.len() implies span_in(s, #[trigger] r[i]) && one_line(s, r[i]) by {
        if r.len() < trimmed.len() {
            assert(r[i] == trimmed[i + 1]);
        } else {
            assert(r[i] == trimmed[i]);
        }
    }
}

/// The inline lines of a leaf other than a code block start without white
/// space, and the last one ends without.
pub proof fn lemma_leaf_lines_clean(s: Seq<u8>, lf: Leaf, ls: Seq<Span>)
    requires
        ls.len() >= 1,
        wf_spans(s, ls),
        lf != Leaf::CodeBlock,
    ensures
        spec_leaf_lines(s, lf, ls) matches Some(r) ==> forall|i: int|
            0 <= i < r.len() ==> starts_clean(s, #[trigger] r[i]),
        spec_leaf_lines(s, lf, ls) matches Some(r) ==> (r.len() > 0 ==> ends_clean(s, r.last())),
{
    if let Some(r) = spec_leaf_lines(s, lf, ls) {
        let n = ls.len();
        let a = trim_starts(s, ls);
        assert forall|i: int| 0 <= i < n implies starts_clean(s, #[trigger] a[i]) && span_in(s, a[i]) by {
            let x = ls[i];
            assert(span_in(s, x));
            let t = s.subrange(x.start as int, x.end as int);
            lemma_ws_end_bounds(t, 0, false);
            let k = ws_end(t, 0, false);
            assert(a[i] == trim_start_of(s, x));
            assert(s.subrange(a[i].start as int, a[i].end as int) =~= t.subrange(k, t.len() as int));
        }
        let last = a[n - 1];
        let u = s.subrange(last.start as int, last.end as int);
        lemma_nonws_end_bounds(u, 0, 0);
        let e = trim_end_of(s, last);
        assert(span_in(s, a[n - 1]));
        assert(ends_clean(s, e)) by {
            lemma_nonws_end_prefix(u, 0, 0);
            assert(s.subrange(e.start as int, e.end as int) =~= u.subrange(0, e.end - e.start));
        }
        assert(starts_clean(s, e)) by {
            if e.start != e.end {
                assert(s.subrange(e.start as int, e.end as int) =~= u.subrange(0, e.end - e.start));
            }
        }
        let trimmed = a.update(n - 1, e);
        assert forall|i: int| 0 <= i < trimmed.len() implies starts_clean(s, #[trigger] trimmed[i]) by {
            if i < n - 1 {
                assert(trimmed[i] == a[i]);
            }
        }
        if r.len() > 0 {
            assert(r.last() == trimmed.last());
        }
        assert forall|i: int| 0 <= i < r.len() implies starts_clean(s, #[trigger] r[i]) by {
            if r.len() < trimmed.len() {
                assert(r[i] == trimmed[i + 1]);
            } else {
                assert(r[i] == trimmed[i]);
            }
        }
    }
}

/// A leaf with marker `x` and inline lines `xs` keeps the state good and leaves
/// the open blocks and lists as they were.
proof fn lemma_leaf_frame(s: Seq<u8>, st: ParseState, lf: Leaf, x: Span, xs: Seq<Span>)
    requires
        state_ok(s, st),
        span_in(s, x),
        wf_spans(s, xs),
        single_lines(s, xs),
        lf != Leaf::CodeBlock ==> forall|i: int| 0 <= i < xs.len() ==> starts_clean(s, #[trigger] xs[i]),
        lf != Leaf::CodeBlock && xs.len() > 0 ==> ends_clean(s, xs.last()),
    ensures
        ({
            let st2 = ps_exit(ps_inlines(ps_enter(st, Node::Leaf(lf), x), xs));
            state_ok(s, st2) && same_frame(st, st2)
        }),
{
    let n = Node::Leaf(lf);
    let st1 = ps_enter(st, n, x);
    let e = Event { kind: EventKind::Enter(n), span: x };
    lemma_replay_push(st.tree.events, e);
    lemma_items_push(st.tree.events, e);
    lemma_trimmed_push(s, st.tree.events, e);
    lemma_ends_push(s, st.tree.events, e);
    assert(!in_leaf(st.tree.open)) by {
        if st.tree.open.len() > 0 {
            assert(!(st.tree.open[st.tree.open.len() - 1].0 is Leaf));
        }
    }
    assert forall|i: int| 0 <= i < st1.tree.events.len() implies span_in(s, #[trigger] st1.tree.events[i].span) by {
        if i < st.tree.events.len() {
            assert(st1.tree.events[i] == st.tree.events[i]);
        }
    }
    assert forall|i: int| 0 <= i < st1.tree.events.len() && (#[trigger] st1.tree.events[i]).kind is Inline implies one_line(s, st1.tree.events[i].span) by {
        assert(st1.tree.events[i] == st.tree.events[i]);
    }
    lemma_inlines(s, st1, xs);
    let st2 = ps_inlines(st1, xs);
    assert forall|i: int| 0 <= i < st2.tree.open.len() implies span_in(s, #[trigger] st2.tree.open[i].1) by {
        if i < st.tree.open.len() {
            assert(st2.tree.open[i] == st.tree.open[i]);
        }
    }
    lemma_exit(s, st2);
    let st3 = ps_exit(st2);
    assert(st3.tree.open =~= st.tree.open);
}

/// An atom keeps the state good and leaves the open blocks and lists as they were.
proof fn lemma_atom_frame(s: Seq<u8>, st: ParseState, a: crate::block::Atom, x: Span)
    requires
        state_ok(s, st),
        span_in(s, x),
    ensures
        state_ok(s, ps_atom(st, a, x)),
        same_frame(st, ps_atom(st, a, x)),
{
    let e = Event { kind: EventKind::Atom(a), span: x };
    lemma_replay_push(st.tree.events, e);
    lemma_items_push(st.tree.events, e);
    lemma_trimmed_push(s, st.tree.events, e);
    lemma_ends_push(s, st.tree.events, e);
    assert(!in_leaf(st.tree.open)) by {
        if st.tree.open.len() > 0 {
            assert(!(st.tree.open[st.tree.open.len() - 1].0 is Leaf));
        }
    }
    let st2 = ps_atom(st, a, x);
    assert forall|i: int| 0 <= i < st2.tree.events.len() implies span_in(s, #[trigger] st2.tree.events[i].span) by {
        if i < st.tree.events.len() {
            assert(st2.tree.events[i] == st.tree.events[i]);
        }
    }
    assert forall|i: int| 0 <= i < st2.tree.events.len() && (#[trigger] st2.tree.events[i]).kind is Inline implies one_line(s, st2.tree.events[i].span) by {
        assert(st2.tree.events[i] == st.tree.events[i]);
    }
}

/// The lines of a block lie in the source, and so does its marker.
pub proof fn lemma_block_lines_in(s: Seq<u8>, ls: Seq<Span>, p: crate::block::BlockParser, lc: int)
    requires
        ls.len() >= 1,
        s.len() <= usize::MAX,
        wf_spans(s, ls),
        cut(s, ls[0]) is Some,
        spec_new(s.subrange(ls[0].start as int, ls[0].end as int)) == Some(p),
        lc >= 1,
        crate::block::has_end_delimiter(p.kind) ==> lc >= 2,
        single_lines(s, ls),
    ensures
        wf_spans(s, block_lines(ls, p, lc)),
        single_lines(s, block_lines(ls, p, lc)),
        span_in(s, block_span(ls, p)),
{
    lemma_new_facts(s.subrange(ls[0].start as int, ls[0].end as int));
    lemma_block_lines(ls, p, lc);
    let b = block_lines(ls, p, lc);
    assert(span_in(s, ls[0]));
    assert(one_line(s, ls[0]));
    assert forall|i: int| 0 <= i < b.len() implies span_in(s, #[trigger] b[i]) && one_line(s, b[i]) by {
        if i > 0 {
            assert(b[i] == ls[i]);
        }
    }
}

/// A block keeps the parser's state good, and either leaves the open blocks
/// and lists as they were, opens exactly one list, or replaces the innermost
/// open list by a new one (see `frame`).
pub proof fn lemma_block_frame(s: Seq<u8>, ls: Seq<Span>, st: ParseState)
    requires
        state_ok(s, st),
        wf_spans(s, ls),
        single_lines(s, ls),
        s.len() <= usize::MAX,
    ensures
        spec_block(s, ls, st) matches Some((st2, _)) ==> state_ok(s, st2) && frame(st, st2),
    decreases total_len(ls), 0int, 0int,
{
    if ls.len() > 0 {
        if let Some((p, lc)) = spec_read(cut_lines(s, ls)) {
            lemma_read_count(cut_lines(s, ls));
            assert(cut_lines(s, ls)[0] == cut(s, ls[0]));
            lemma_block_lines_in(s, ls, p, lc);
            lemma_block_lines(ls, p, lc);
            let span = block_span(ls, p);
            let ls3 = block_lines(ls, p, lc);
            match p.kind {
                Block::Atom(a) => {
                    lemma_atom_frame(s, st, a, span);
                },
                Block::Leaf(lf) => {
                    if let Some(inl) = spec_leaf_lines(s, lf, ls3) {
                        lemma_leaf_lines_in(s, lf, ls3);
                        if lf != Leaf::CodeBlock {
                            lemma_leaf_lines_clean(s, lf, ls3);
                        }
                        lemma_leaf_frame(s, st, lf, span, inl);
                    }
                },
                Block::Container(c) => {
                    let skip_chars: int = match c {
                        Container::Blockquote => 2,
                        Container::Div => 0,
                        _ => p.indent as int,
                    };
                    let inner: int = if c == Container::Div {
                        ls3.len() - 1
                    } else {
                        ls3.len() as int
                    };
                    let quote = c == Container::Blockquote;
                    if let Some(ls4) = spec_strip(s, ls3, skip_chars, quote) {
                        lemma_block_shrinks(s, ls, p, lc, skip_chars, quote, ls4, inner);
                        lemma_strip_in(s, ls3, skip_chars, quote);
                        let kids = ls4.subrange(0, inner);
                        assert(wf_spans(s, kids) && single_lines(s, kids)) by {
                            assert forall|i: int| 0 <= i < kids.len() implies span_in(s, #[trigger] kids[i]) && one_line(s, kids[i]) by {
                                assert(kids[i] == ls4[i]);
                            }
                        }
                        lemma_container_frame(s, c, span, kids, st);
                    }
                },
            }
        }
    }
}

/// The lines of a container, stripped, still lie in the source.
pub proof fn lemma_strip_in(s: Seq<u8>, ls: Seq<Span>, skip_chars: int, quote: bool)
    requires
        wf_spans(s, ls),
        skip_chars >= 0,
        s.len() <= usize::MAX,
    ensures
        spec_strip(s, ls, skip_chars, quote) matches Some(r) ==> wf_spans(s, r) && (single_lines(s, ls) ==> single_lines(s, r)),
{
    if let Some(r) = spec_strip(s, ls, skip_chars, quote) {
        assert forall|i: int| 0 <= i < r.len() implies span_in(s, #[trigger] r[i]) && (single_lines(s, ls) ==> one_line(s, r[i])) by {
            assert(span_in(s, ls[i]));
            if i > 0 {
                lemma_ws_end_bounds(s.subrange(ls[i].start as int, ls[i].end as int), 0, false);
            }
        }
    }
}

/// Entering a new list keeps the state good: it becomes the innermost open
/// block and the innermost open list.
proof fn lemma_enter_list(s: Seq<u8>, st: ParseState, ty: ListType, x: Span)
    requires
        state_ok(s, st),
        span_in(s, x),
    ensures
        enter_list(st, ty, x) matches Some(st1) ==> {
            &&& state_ok(s, st1)
            &&& st1.tree.open.len() == st.tree.open.len() + 1
            &&& st1.tree.open.drop_last() == st.tree.open
            &&& st1.tree.open.last().0 == Node::Container(Container::List(ty))
            &&& st1.lists.len() == st.lists.len() + 1
            &&& st1.lists.drop_last() == st.lists
            &&& st1.lists.last().depth == st1.tree.open.len()
            &&& st1.lists.last().ty == ty
        },
{
    let ln = Node::Container(Container::List(ty));
    lemma_enter(s, st, ln, x);
    if let Some(st1) = enter_list(st, ty, x) {
        let ste = ps_enter(st, ln, x);
        let n = st.lists.len() as int;
        assert forall|i: int| 0 <= i < st1.lists.len() implies 1 <= (#[trigger] st1.lists[i]).depth
            <= st1.tree.open.len() && st1.tree.open[st1.lists[i].depth - 1].0 == Node::Container(
            Container::List(st1.lists[i].ty)) by {
            if i < n {
                assert(st1.lists[i] == st.lists[i]);
                assert(st1.tree.open[st.lists[i].depth - 1] == st.tree.open[st.lists[i].depth - 1]);
            }
        }
        assert forall|i: int, j: int| 0 <= i < j < st1.lists.len() implies (#[trigger] st1.lists[i]).depth
            < (#[trigger] st1.lists[j]).depth by {
            assert(st1.lists[i] == st.lists[i]);
            if j < n {
                assert(st1.lists[j] == st.lists[j]);
            }
        }
        assert(st1.lists.drop_last() =~= st.lists);
        assert(st1.tree.open.drop_last() =~= st.tree.open);
    }
}

/// A container keeps the parser's state good, and either leaves the open
/// blocks and lists as they were, opens exactly one list, or replaces the
/// innermost open list by a new one; the innermost open
/// list never lies deeper than the current block.
pub proof fn lemma_container_frame(s: Seq<u8>, c: Container, x: Span, ls: Seq<Span>, st: ParseState)
    requires
        state_ok(s, st),
        wf_spans(s, ls),
        single_lines(s, ls),
        span_in(s, x),
        s.len() <= usize::MAX,
    ensures
        spec_container(s, c, x, ls, st) matches Some(st2) ==> state_ok(s, st2) && frame(st, st2),
        (spec_open_list(st, c, x) is Some && spec_blocks(
            s,
            ls,
            ps_enter(spec_open_list(st, c, x)->0, Node::Container(c), x),
        ) is Some) ==> spec_container(s, c, x, ls, st) is Some,
        spec_open_list(st, c, x) matches Some(st1) ==> frame(st, st1) && state_ok(
            s,
            ps_enter(st1, Node::Container(c), x),
        ),
    decreases total_len(ls), 2int, 0int,
{
    if let Some(st1) = spec_open_list(st, c, x) {
        assert(state_ok(s, st1) && frame(st, st1) && (c matches Container::ListItem(ty) ==> (st1.tree.open.len() > 0
            && st1.tree.open.last().0 == Node::Container(Container::List(ty))))) by {
            if let Container::ListItem(ty) = c {
                if st.lists.len() == 0 || st.lists.last().depth < st.tree.open.len() {
                    lemma_enter_list(s, st, ty, x);
                } else if st.lists.last().depth == st.tree.open.len() && st.lists.last().ty != ty {
                    let stx = ParseState { tree: b_exit(st.tree), lists: st.lists.drop_last() };
                    lemma_exit(s, st);
                    assert(state_ok(s, stx)) by {
                        let k = st.lists.len() - 1;
                        assert forall|i: int| 0 <= i < stx.tree.open.len() implies !(#[trigger] stx.tree.open[i].0 is Leaf) by {
                            assert(stx.tree.open[i] == st.tree.open[i]);
                        }
                        assert forall|i: int| 0 <= i < stx.lists.len() implies 1 <= (#[trigger] stx.lists[i]).depth
                            <= stx.tree.open.len() && stx.tree.open[stx.lists[i].depth - 1].0 == Node::Container(
                            Container::List(stx.lists[i].ty)) by {
                            assert(stx.lists[i] == st.lists[i]);
                            assert(st.lists[i].depth < st.lists[k].depth);
                            assert(stx.tree.open[st.lists[i].depth - 1] == st.tree.open[st.lists[i].depth - 1]);
                        }
                        assert forall|i: int, j: int| 0 <= i < j < stx.lists.len() implies (#[trigger] stx.lists[i]).depth
                            < (#[trigger] stx.lists[j]).depth by {
                            assert(stx.lists[i] == st.lists[i]);
                            assert(stx.lists[j] == st.lists[j]);
                        }
                    }
                    lemma_enter_list(s, stx, ty, x);
                    assert(st1.tree.open.drop_last() =~= st.tree.open.drop_last());
                    assert(st1.lists.drop_last() =~= st.lists.drop_last());
                } else {
                    let k = st.lists.len() - 1;
                    assert(st.lists[k].depth == st.tree.open.len());
                }
            }
        }
        let xn = Node::Container(c);
        lemma_enter(s, st1, xn, x);
        let st2 = ps_enter(st1, xn, x);
        lemma_total_nonneg(ls);
        lemma_blocks_frame(s, ls, st2);
        if let Some(st3) = spec_blocks(s, ls, st2) {
            assert(st3.tree.open.len() > 0);
            if same_frame(st2, st3) {
                if st3.lists.len() > 0 {
                    assert(st3.lists.last() == st1.lists[st1.lists.len() - 1]);
                }
                assert(spec_close_list(st3) == Some(st3));
                lemma_exit(s, st3);
                let st5 = ps_exit(st3);
                assert(st5.tree.open =~= st1.tree.open);
                assert forall|i: int| 0 <= i < st5.tree.open.len() implies !(#[trigger] st5.tree.open[i].0 is Leaf) by {
                    assert(st5.tree.open[i] == st1.tree.open[i]);
                }
            } else {
                let st4 = ParseState { tree: b_exit(st3.tree), lists: st3.lists.drop_last() };
                assert(spec_close_list(st3) == Some(st4));
                lemma_exit(s, st3);
                assert(st4.tree.open =~= st2.tree.open);
                assert(st4.lists =~= st1.lists);
                lemma_exit(s, st4);
                let st5 = ps_exit(st4);
                assert(st5.tree.open =~= st1.tree.open);
                assert forall|i: int| 0 <= i < st5.tree.open.len() implies !(#[trigger] st5.tree.open[i].0 is Leaf) by {
                    assert(st5.tree.open[i] == st1.tree.open[i]);
                }
            }
        }
    }
}

/// Blocks one after the other keep the parser's state good, and either leave
/// the open blocks and lists as they were, open exactly one list, or replace
/// the innermost open list by a new one.
pub proof fn lemma_blocks_frame(s: Seq<u8>, ls: Seq<Span>, st: ParseState)
    requires
        state_ok(s, st),
        wf_spans(s, ls),
        single_lines(s, ls),
        s.len() <= usize::MAX,
    ensures
        spec_blocks(s, ls, st) matches Some(st2) ==> state_ok(s, st2) && frame(st, st2),
    decreases total_len(ls), 1int, ls.len(),
{
    if ls.len() > 0 {
        lemma_block_frame(s, ls, st);
        if let Some((st2, c)) = spec_block(s, ls, st) {
            if !(c <= 0 || c >= ls.len()) {
                lemma_total_split(ls, c);
                let rest = ls.subrange(c, ls.len() as int);
                assert(wf_spans(s, rest) && single_lines(s, rest)) by {
                    assert forall|i: int| 0 <= i < rest.len() implies span_in(s, #[trigger] rest[i]) && one_line(s, rest[i]) by {
                        assert(rest[i] == ls[i + c]);
                    }
                }
                lemma_blocks_frame(s, rest, st2);
                if let Some(st3) = spec_blocks(s, rest, st2) {
                    lemma_frame_compose(st, st2, st3);
                }
            }
        }
    }
}

/// A parse yields a tree: the events are well nested (every exit closes the
/// innermost open block with its node and span, leaves hold only inline
/// events and inline events occur only in leaves, and nothing is left open),
/// every event's span lies in the source, every inline event lies within one
/// line and, outside code blocks, starts without white space (the last one of
/// a leaf also ending without), and every list item is entered directly inside
/// a list of its type.
pub proof fn lemma_parse_well_formed(s: Seq<u8>)
    requires
        s.len() <= usize::MAX,
        spec_parse(s) is Some,
    ensures
        well_nested(spec_parse(s)->0),
        forall|i: int| 0 <= i < spec_parse(s)->0.len() ==> span_in(s, #[trigger] spec_parse(s)->0[i].span),
        inlines_single(s, spec_parse(s)->0),
        items_in_lists(spec_parse(s)->0),
        inlines_trimmed(s, spec_parse(s)->0),
        leaves_end_clean(s, spec_parse(s)->0),
{
    lemma_lines_structure(s);
    let ls = spec_lines(s);
    assert forall|i: int| 0 <= i < ls.len() implies one_line(s, #[trigger] ls[i]) by {
        assert forall|j: int| ls[i].start <= j < ls[i].end - 1 implies #[trigger] s[j] != 0x0a by {
            assert(ls[i].start <= j < ls[i].end - 1);
        }
    }
    let st0 = init_state();
    assert(replay(st0.tree.events) == Some(st0.tree.open));
    lemma_blocks_frame(s, spec_lines(s), st0);
    let st = spec_blocks(s, spec_lines(s), st0)->0;
    if same_frame(st0, st) {
        assert(exit_n(st.tree, st.lists.len()) == st.tree);
    } else {
        assert(exit_n(st.tree, st.lists.len()) == exit_n(b_exit(st.tree), 0));
        lemma_exit(s, st);
        assert(ps_exit(st).tree.open =~= Seq::<(Node, Span)>::empty());
    }
}

} // verus!
