//! Inline events come in document order: each one ends no later than the next
//! one begins.
use vstd::prelude::*;
use crate::block::{
    block_lines, block_span, cut, cut_lines, exit_n, init_state, lemma_block_lines,
    lemma_block_shrinks, lemma_lines_structure, lemma_new_facts, lemma_read_count,
    lemma_total_nonneg, lemma_total_split, ps_enter, ps_inlines, spec_block,
    spec_blocks, spec_close_list, spec_container, spec_leaf_lines, spec_lines, spec_new, spec_open_list,
    spec_parse, spec_read, spec_strip, strip_line, tiles, total_len, trim_end_of, trim_start_of,
    trim_starts, wf_spans, span_in, Block, Container, Leaf, Node, ParseState,
};
use crate::span::Span;
use crate::text::{lemma_nonws_end_bounds, lemma_ws_end_bounds};
use crate::tree::{b_exit, b_inline, BuilderView, Event, EventKind};

verus! {

/// Spans that are not backwards, each ending no later than the next begins.
pub open spec fn in_order(ls: Seq<Span>) -> bool {
    &&& forall|i: int| 0 <= i < ls.len() ==> (#[trigger] ls[i]).start <= ls[i].end
    &&& forall|i: int, j: int| 0 <= i < j < ls.len() ==> (#[trigger] ls[i]).end <= (#[trigger] ls[j]).start
}

/// Every span lies between the positions `lo` and `hi`.
pub open spec fn within(ls: Seq<Span>, lo: int, hi: int) -> bool {
    forall|i: int| 0 <= i < ls.len() ==> lo <= (#[trigger] ls[i]).start && ls[i].end <= hi
}

/// The inline events come in document order: each ends no later than the next
/// one begins, and none is backwards.
pub open spec fn inlines_in_order(evs: Seq<Event>) -> bool {
    &&& forall|i: int| 0 <= i < evs.len() && (#[trigger] evs[i]).kind is Inline ==> evs[i].span.start <= evs[i].span.end
    &&& forall|i: int, j: int|
        0 <= i < j < evs.len() && (#[trigger] evs[i]).kind is Inline && (#[trigger] evs[j]).kind is Inline
            ==> evs[i].span.end <= evs[j].span.start
}

/// The inline events come in document order and end no later than `pos`.
pub open spec fn inlines_before(evs: Seq<Event>, pos: int) -> bool {
    &&& inlines_in_order(evs)
    &&& forall|i: int| 0 <= i < evs.len() && (#[trigger] evs[i]).kind is Inline ==> evs[i].span.end <= pos
}

proof fn lemma_push_other(evs: Seq<Event>, pos: int, e: Event)
    requires
        inlines_before(evs, pos),
        !(e.kind is Inline),
    ensures
        inlines_before(evs.push(e), pos),
{
    let e2 = evs.push(e);
    assert forall|i: int| 0 <= i < e2.len() && (#[trigger] e2[i]).kind is Inline implies e2[i].span.start
        <= e2[i].span.end && e2[i].span.end <= pos by {
        assert(e2[i] == evs[i]);
    }
    assert forall|i: int, j: int|
        0 <= i < j < e2.len() && (#[trigger] e2[i]).kind is Inline && (#[trigger] e2[j]).kind is Inline
            implies e2[i].span.end <= e2[j].span.start by {
        assert(e2[i] == evs[i]);
        assert(e2[j] == evs[j]);
    }
}

proof fn lemma_push_inline(evs: Seq<Event>, pos: int, x: Span)
    requires
        inlines_before(evs, pos),
        pos <= x.start <= x.end,
    ensures
        inlines_before(evs.push(Event { kind: EventKind::Inline, span: x }), x.end as int),
{
    let e2 = evs.push(Event { kind: EventKind::Inline, span: x });
    let n = evs.len() as int;
    assert forall|i: int| 0 <= i < e2.len() && (#[trigger] e2[i]).kind is Inline implies e2[i].span.start
        <= e2[i].span.end && e2[i].span.end <= x.end by {
        if i < n {
            assert(e2[i] == evs[i]);
        }
    }
    assert forall|i: int, j: int|
        0 <= i < j < e2.len() && (#[trigger] e2[i]).kind is Inline && (#[trigger] e2[j]).kind is Inline
            implies e2[i].span.end <= e2[j].span.start by {
        assert(e2[i] == evs[i]);
        if j < n {
            assert(e2[j] == evs[j]);
        }
    }
}

proof fn lemma_exit_order(b: BuilderView, pos: int)
    requires
        inlines_before(b.events, pos),
    ensures
        inlines_before(b_exit(b).events, pos),
{
    if b.open.len() > 0 {
        lemma_push_other(b.events, pos, Event { kind: EventKind::Exit(b.open.last().0), span: b.open.last().1 });
    }
}

proof fn lemma_exit_n_order(b: BuilderView, n: nat, pos: int)
    requires
        inlines_before(b.events, pos),
    ensures
        inlines_before(exit_n(b, n).events, pos),
    decreases n,
{
    if n > 0 {
        lemma_exit_order(b, pos);
        lemma_exit_n_order(b_exit(b), (n - 1) as nat, pos);
    }
}

proof fn lemma_weaken(evs: Seq<Event>, pos: int, pos2: int)
    requires
        inlines_before(evs, pos),
        pos <= pos2,
    ensures
        inlines_before(evs, pos2),
{
}

proof fn lemma_inlines_order(st: ParseState, xs: Seq<Span>, lo: int, hi: int)
    requires
        inlines_before(st.tree.events, lo),
        in_order(xs),
        within(xs, lo, hi),
        lo <= hi,
    ensures
        inlines_before(ps_inlines(st, xs).tree.events, hi),
    decreases xs.len(),
{
    if xs.len() > 0 {
        let x = xs[0];
        lemma_push_inline(st.tree.events, lo, x);
        let st1 = ParseState { tree: b_inline(st.tree, x), lists: st.lists };
        let rest = xs.drop_first();
        assert(in_order(rest)) by {
            assert forall|i: int| 0 <= i < rest.len() implies (#[trigger] rest[i]).start <= rest[i].end by {
                assert(rest[i] == xs[i + 1]);
            }
            assert forall|i: int, j: int| 0 <= i < j < rest.len() implies (#[trigger] rest[i]).end
                <= (#[trigger] rest[j]).start by {
                assert(rest[i] == xs[i + 1]);
                assert(rest[j] == xs[j + 1]);
            }
        }
        assert(within(rest, x.end as int, hi)) by {
            assert forall|i: int| 0 <= i < rest.len() implies x.end <= (#[trigger] rest[i]).start
                && rest[i].end <= hi by {
                assert(rest[i] == xs[i + 1]);
                assert(xs[0].end <= xs[i + 1].start);
            }
        }
        lemma_inlines_order(st1, rest, x.end as int, hi);
    }
}

/// Spans that each lie within the one at the same place in `ls`.
pub open spec fn inside(a: Seq<Span>, ls: Seq<Span>) -> bool {
    &&& a.len() == ls.len()
    &&& forall|i: int|
        0 <= i < a.len() ==> ls[i].start <= (#[trigger] a[i]).start && a[i].start <= a[i].end
            && a[i].end <= ls[i].end
}

proof fn lemma_inside_order(a: Seq<Span>, ls: Seq<Span>, lo: int, hi: int)
    requires
        inside(a, ls),
        in_order(ls),
        within(ls, lo, hi),
    ensures
        in_order(a),
        within(a, lo, hi),
{
    assert forall|i: int, j: int| 0 <= i < j < a.len() implies (#[trigger] a[i]).end <= (#[trigger] a[j]).start by {
        assert(ls[i].end <= ls[j].start);
    }
    assert forall|i: int| 0 <= i < a.len() implies lo <= (#[trigger] a[i]).start && a[i].end <= hi by {
        assert(lo <= ls[i].start && ls[i].end <= hi);
    }
}

proof fn lemma_order_drop_first(a: Seq<Span>, lo: int, hi: int)
    requires
        a.len() >= 1,
        in_order(a),
        within(a, lo, hi),
    ensures
        in_order(a.drop_first()),
        within(a.drop_first(), lo, hi),
{
    let r = a.drop_first();
    assert forall|i: int| 0 <= i < r.len() implies (#[trigger] r[i]).start <= r[i].end && lo <= r[i].start
        && r[i].end <= hi by {
        assert(r[i] == a[i + 1]);
    }
    assert forall|i: int, j: int| 0 <= i < j < r.len() implies (#[trigger] r[i]).end <= (#[trigger] r[j]).start by {
        assert(r[i] == a[i + 1]);
        assert(r[j] == a[j + 1]);
    }
}

proof fn lemma_order_prefix(a: Seq<Span>, k: int, lo: int, hi: int)
    requires
        0 <= k <= a.len(),
        in_order(a),
        within(a, lo, hi),
    ensures
        in_order(a.subrange(0, k)),
        within(a.subrange(0, k), lo, hi),
        k > 0 ==> within(a.subrange(0, k), lo, a[k - 1].end as int),
{
    let r = a.subrange(0, k);
    assert forall|i: int| 0 <= i < r.len() implies (#[trigger] r[i]).start <= r[i].end && lo <= r[i].start
        && r[i].end <= hi && r[i].end <= a[k - 1].end by {
        assert(r[i] == a[i]);
        if i < k - 1 {
            assert(a[i].end <= a[k - 1].start);
        }
    }
    assert forall|i: int, j: int| 0 <= i < j < r.len() implies (#[trigger] r[i]).end <= (#[trigger] r[j]).start by {
        assert(r[i] == a[i]);
        assert(r[j] == a[j]);
    }
}

proof fn lemma_order_suffix(a: Seq<Span>, k: int, lo: int, hi: int)
    requires
        0 <= k < a.len(),
        in_order(a),
        within(a, lo, hi),
    ensures
        in_order(a.subrange(k, a.len() as int)),
        within(a.subrange(k, a.len() as int), a[k].start as int, hi),
        k > 0 ==> a[k - 1].end <= a[k].start,
{
    let r = a.subrange(k, a.len() as int);
    assert forall|i: int| 0 <= i < r.len() implies (#[trigger] r[i]).start <= r[i].end && a[k].start
        <= r[i].start && r[i].end <= hi by {
        assert(r[i] == a[k + i]);
        if i > 0 {
            assert(a[k].end <= a[k + i].start);
        }
    }
    assert forall|i: int, j: int| 0 <= i < j < r.len() implies (#[trigger] r[i]).end <= (#[trigger] r[j]).start by {
        assert(r[i] == a[k + i]);
        assert(r[j] == a[k + j]);
    }
    if k > 0 {
        assert(a[k - 1].end <= a[k].start);
    }
}

/// The inline lines of a leaf lie within its lines, in order.
proof fn lemma_leaf_lines_order(s: Seq<u8>, lf: Leaf, ls: Seq<Span>, lo: int, hi: int)
    requires
        ls.len() >= 1,
        wf_spans(s, ls),
        in_order(ls),
        within(ls, lo, hi),
    ensures
        spec_leaf_lines(s, lf, ls) matches Some(r) ==> in_order(r) && within(r, lo, hi),
{
    if let Some(r) = spec_leaf_lines(s, lf, ls) {
        let n = ls.len();
        assert forall|i: int| 0 <= i < n implies ls[i].start <= (#[trigger] trim_start_of(s, ls[i])).start
            && trim_start_of(s, ls[i]).start <= trim_start_of(s, ls[i]).end && trim_start_of(s, ls[i]).end
            == ls[i].end by {
            assert(span_in(s, ls[i]));
            lemma_ws_end_bounds(s.subrange(ls[i].start as int, ls[i].end as int), 0, false);
        }
        let trimmed = if lf == Leaf::CodeBlock {
            ls.update(0, trim_start_of(s, ls[0]))
        } else {
            let a = trim_starts(s, ls);
            let last = a[n - 1];
            assert(a[n - 1] == trim_start_of(s, ls[n - 1]));
            assert(span_in(s, ls[n - 1]));
            lemma_nonws_end_bounds(s.subrange(last.start as int, last.end as int), 0, 0);
            a.update(n - 1, trim_end_of(s, last))
        };
        assert(inside(trimmed, ls)) by {
            assert forall|i: int| 0 <= i < trimmed.len() implies ls[i].start <= (#[trigger] trimmed[i]).start
                && trimmed[i].start <= trimmed[i].end && trimmed[i].end <= ls[i].end by {
                if lf != Leaf::CodeBlock && i < n - 1 {
                    assert(trimmed[i] == trim_start_of(s, ls[i]));
                }
                if lf == Leaf::CodeBlock && i > 0 {
                    assert(trimmed[i] == ls[i]);
                }
            }
        }
        lemma_inside_order(trimmed, ls, lo, hi);
        if r.len() < trimmed.len() {
            lemma_order_drop_first(trimmed, lo, hi);
            assert(r == trimmed.drop_first());
        } else {
            assert(r == trimmed);
        }
    }
}

/// The lines of a block lie each within the line it comes from, and in order
/// between `lo` and the end of the last line the block uses.
pub proof fn lemma_block_lines_order(
    s: Seq<u8>,
    ls: Seq<Span>,
    p: crate::block::BlockParser,
    lc: int,
    lo: int,
    hi: int,
)
    requires
        ls.len() >= 1,
        s.len() <= usize::MAX,
        wf_spans(s, ls),
        cut(s, ls[0]) is Some,
        spec_new(s.subrange(ls[0].start as int, ls[0].end as int)) == Some(p),
        lc >= 1,
        crate::block::has_end_delimiter(p.kind) ==> lc >= 2,
        in_order(ls),
        within(ls, lo, hi),
    ensures
        ({
            let l = if lc > ls.len() { ls.len() as int } else { lc };
            let b = block_lines(ls, p, lc);
            &&& in_order(b)
            &&& inside(b, ls.subrange(0, b.len() as int))
            &&& within(b, lo, ls[l - 1].end as int)
            &&& wf_spans(s, b)
            &&& lo <= block_span(ls, p).end
        }),
{
    lemma_new_facts(s.subrange(ls[0].start as int, ls[0].end as int));
    lemma_block_lines(ls, p, lc);
    let n = ls.len() as int;
    let l = if lc > n { n } else { lc };
    lemma_order_prefix(ls, l, lo, hi);
    let pre = ls.subrange(0, l);
    let b = block_lines(ls, p, lc);
    assert(span_in(s, ls[0]));
    assert(b.len() <= pre.len());
    assert(inside(b, pre.subrange(0, b.len() as int))) by {
        assert forall|i: int| 0 <= i < b.len() implies pre.subrange(0, b.len() as int)[i].start
            <= (#[trigger] b[i]).start && b[i].start <= b[i].end && b[i].end <= pre.subrange(
            0,
            b.len() as int,
        )[i].end by {
            assert(pre.subrange(0, b.len() as int)[i] == ls[i]);
            if i > 0 {
                assert(b[i] == ls[i]);
            }
        }
    }
    lemma_order_prefix(pre, b.len() as int, lo, ls[l - 1].end as int);
    lemma_inside_order(b, pre.subrange(0, b.len() as int), lo, ls[l - 1].end as int);
    assert(pre.subrange(0, b.len() as int) =~= ls.subrange(0, b.len() as int));
    assert(wf_spans(s, b)) by {
        assert forall|i: int| 0 <= i < b.len() implies span_in(s, #[trigger] b[i]) by {
            if i > 0 {
                assert(b[i] == ls[i]);
                assert(span_in(s, ls[i]));
            }
        }
    }
}

/// The stripped lines of a container lie each within the line it comes from,
/// in order.
pub proof fn lemma_strip_order(s: Seq<u8>, ls: Seq<Span>, skip_chars: int, quote: bool, lo: int, hi: int)
    requires
        wf_spans(s, ls),
        skip_chars >= 0,
        in_order(ls),
        within(ls, lo, hi),
    ensures
        spec_strip(s, ls, skip_chars, quote) matches Some(r) ==> in_order(r) && within(r, lo, hi)
            && inside(r, ls),
{
    if let Some(r) = spec_strip(s, ls, skip_chars, quote) {
        assert(inside(r, ls)) by {
            assert forall|i: int| 0 <= i < r.len() implies ls[i].start <= (#[trigger] r[i]).start
                && r[i].start <= r[i].end && r[i].end <= ls[i].end by {
                assert(span_in(s, ls[i]));
                if i > 0 {
                    assert(r[i] == strip_line(s, ls[i], skip_chars, quote));
                    lemma_ws_end_bounds(s.subrange(ls[i].start as int, ls[i].end as int), 0, false);
                }
            }
        }
        lemma_inside_order(r, ls, lo, hi);
    }
}

/// Where the block that uses `c` of the lines `ls` leaves off: at the start of
/// the next line, or at `hi` where none is left.
pub open spec fn next_pos(ls: Seq<Span>, c: int, hi: int) -> int {
    if 1 <= c < ls.len() {
        ls[c].start as int
    } else {
        hi
    }
}

/// A block keeps the inline events in order, and ends them before the lines
/// that follow it.
pub proof fn lemma_block_order(s: Seq<u8>, ls: Seq<Span>, st: ParseState, lo: int, hi: int)
    requires
        inlines_before(st.tree.events, lo),
        in_order(ls),
        within(ls, lo, hi),
        lo <= hi,
    ensures
        spec_block(s, ls, st) matches Some((st2, c)) ==> inlines_before(st2.tree.events, next_pos(ls, c, hi)),
    decreases total_len(ls), 0int, 0int,
{
    if ls.len() > 0 && s.len() <= usize::MAX && wf_spans(s, ls) {
        if let Some((p, lc)) = spec_read(cut_lines(s, ls)) {
            lemma_read_count(cut_lines(s, ls));
            assert(cut_lines(s, ls)[0] == cut(s, ls[0]));
            lemma_block_lines_order(s, ls, p, lc, lo, hi);
            lemma_block_lines(ls, p, lc);
            let n = ls.len() as int;
            let l = if lc > n { n } else { lc };
            let end = ls[l - 1].end as int;
            let nxt = next_pos(ls, lc, hi);
            assert(end <= nxt) by {
                if 1 <= lc < n {
                    lemma_order_suffix(ls, lc, lo, hi);
                } else {
                    assert(ls[l - 1].end <= hi);
                }
            }
            let span = block_span(ls, p);
            let ls3 = block_lines(ls, p, lc);
            match p.kind {
                Block::Atom(a) => {
                    lemma_push_other(st.tree.events, lo, crate::tree::Event { kind: EventKind::Atom(a), span });
                },
                Block::Leaf(lf) => {
                    if let Some(inl) = spec_leaf_lines(s, lf, ls3) {
                        lemma_leaf_lines_order(s, lf, ls3, lo, end);
                        let e = crate::tree::Event { kind: EventKind::Enter(Node::Leaf(lf)), span };
                        lemma_push_other(st.tree.events, lo, e);
                        let st1 = ps_enter(st, Node::Leaf(lf), span);
                        lemma_inlines_order(st1, inl, lo, end);
                        lemma_exit_order(ps_inlines(st1, inl).tree, end);
                    }
                },
                Block::Container(c) => {
                    let skip_chars: int = match c {
                        Container::Blockquote => 2,
                        Container::Div => 0,
                        _ => p.indent as int,
                    };
                    let inner: int = if c == Container::Div {
                        ls3.len() - 1
                    } else {
                        ls3.len() as int
                    };
                    let quote = c == Container::Blockquote;
                    if let Some(ls4) = spec_strip(s, ls3, skip_chars, quote) {
                        lemma_block_shrinks(s, ls, p, lc, skip_chars, quote, ls4, inner);
                        lemma_strip_order(s, ls3, skip_chars, quote, lo, end);
                        lemma_order_prefix(ls4, inner, lo, end);
                        lemma_container_order(s, c, span, ls4.subrange(0, inner), st, lo, end);
                    }
                },
            }
        }
    }
}

/// A container keeps the inline events in order, and ends them before `hi`.
pub proof fn lemma_container_order(
    s: Seq<u8>,
    c: Container,
    x: Span,
    ls: Seq<Span>,
    st: ParseState,
    lo: int,
    hi: int,
)
    requires
        inlines_before(st.tree.events, lo),
        in_order(ls),
        within(ls, lo, hi),
        lo <= hi,
    ensures
        spec_container(s, c, x, ls, st) matches Some(st2) ==> inlines_before(st2.tree.events, hi),
    decreases total_len(ls), 2int, 0int,
{
    if let Some(st1) = spec_open_list(st, c, x) {
        assert(inlines_before(st1.tree.events, lo)) by {
            if let Container::ListItem(ty) = c {
                let e = Event { kind: EventKind::Enter(Node::Container(Container::List(ty))), span: x };
                if st.lists.len() == 0 || st.lists.last().depth < st.tree.open.len() {
                    lemma_push_other(st.tree.events, lo, e);
                } else if st.lists.last().depth == st.tree.open.len() && st.lists.last().ty != ty {
                    lemma_exit_order(st.tree, lo);
                    lemma_push_other(b_exit(st.tree).events, lo, e);
                }
            }
        }
        lemma_push_other(st1.tree.events, lo, Event { kind: EventKind::Enter(Node::Container(c)), span: x });
        let st2 = ps_enter(st1, Node::Container(c), x);
        lemma_total_nonneg(ls);
        lemma_blocks_order(s, ls, st2, lo, hi);
        if let Some(st3) = spec_blocks(s, ls, st2) {
            if let Some(st4) = spec_close_list(st3) {
                assert(inlines_before(st4.tree.events, hi)) by {
                    lemma_exit_order(st3.tree, hi);
                }
                lemma_exit_order(st4.tree, hi);
            }
        }
    }
}

/// Blocks one after the other keep the inline events in order, and end them
/// before `hi`.
pub proof fn lemma_blocks_order(s: Seq<u8>, ls: Seq<Span>, st: ParseState, lo: int, hi: int)
    requires
        inlines_before(st.tree.events, lo),
        in_order(ls),
        within(ls, lo, hi),
        lo <= hi,
    ensures
        spec_blocks(s, ls, st) matches Some(st2) ==> inlines_before(st2.tree.events, hi),
    decreases total_len(ls), 1int, ls.len(),
{
    if ls.len() == 0 {
        lemma_weaken(st.tree.events, lo, hi);
    } else {
        lemma_block_order(s, ls, st, lo, hi);
        if let Some((st2, c)) = spec_block(s, ls, st) {
            if !(c <= 0 || c >= ls.len()) {
                lemma_total_split(ls, c);
                lemma_order_suffix(ls, c, lo, hi);
                lemma_blocks_order(s, ls.subrange(c, ls.len() as int), st2, ls[c].start as int, hi);
            }
        }
    }
}

/// The inline events of a parse come in document order: each ends no later
/// than the next one begins.
pub proof fn lemma_parse_inlines_in_order(s: Seq<u8>)
    requires
        s.len() <= usize::MAX,
        spec_parse(s) is Some,
    ensures
        inlines_in_order(spec_parse(s)->0),
{
    lemma_lines_structure(s);
    let ls = spec_lines(s);
    assert(tiles(s, ls, 0));
    assert(in_order(ls) && within(ls, 0, s.len() as int)) by {
        assert forall|i: int, j: int| 0 <= i < j < ls.len() implies (#[trigger] ls[i]).end <= (
        #[trigger] ls[j]).start by {
            lemma_tiles_order(s, ls, i, j);
        }
        assert forall|i: int| 0 <= i < ls.len() implies 0 <= (#[trigger] ls[i]).start && ls[i].end
            <= s.len() by {
            assert(ls[i].start < ls[i].end && ls[i].end <= s.len());
        }
    }
    let st0 = init_state();
    lemma_blocks_order(s, ls, st0, 0, s.len() as int);
    let st = spec_blocks(s, ls, st0)->0;
    lemma_exit_n_order(st.tree, st.lists.len(), s.len() as int);
}

proof fn lemma_tiles_order(s: Seq<u8>, ls: Seq<Span>, i: int, j: int)
    requires
        tiles(s, ls, 0),
        0 <= i < j < ls.len(),
    ensures
        ls[i].end <= ls[j].start,
    decreases j - i,
{
    assert(ls[i].end == ls[i + 1].start);
    if i + 1 < j {
        lemma_tiles_order(s, ls, i + 1, j);
        assert(ls[i + 1].start < ls[i + 1].end);
    }
}

} // verus!
