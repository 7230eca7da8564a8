//! Every span of a parse of a `str` falls on character boundaries, so that the
//! text of each event can be sliced out of the source.
use vstd::prelude::*;
use vstd::utf8::{
    is_char_boundary, is_char_boundary_iff_not_is_continuation_byte,
    is_char_boundary_start_end_of_seq, length_of_first_scalar, pop_first_scalar,
    valid_first_scalar, valid_utf8, valid_utf8_split,
};
use crate::block::{
    aligned, block_lines, block_span, cont_count, cut, cut_lines, exit_n,
    init_state, lemma_block_lines, lemma_block_shrinks, lemma_new_facts,
    lemma_read_count, lemma_total_nonneg, lemma_total_split, ps_enter, ps_inlines, spec_block,
    spec_blocks, spec_close_list, spec_container, spec_leaf_lines, spec_lines, spec_new,
    spec_open_list, spec_parse, spec_read, spec_strip, span_in, total_len, trim_end_of,
    trim_start_of, trim_starts, wf_spans, Atom, Block, BlockParser, Container, Leaf, Node,
    ParseState,
};
use crate::span::Span;
use crate::tree::{b_atom, b_enter, b_exit, b_inline, BuilderView, Event, EventKind};
use crate::markers::{block_marker, lemma_new_marks};
use crate::text::{
    boundary, char_len_at, is_ws_at, nonws_end, run_of, trim_range, utf8_width, ws_end,
    lemma_nonws_end_bounds, lemma_run_of_bounds, lemma_trim_order,
    lemma_ws_end_bounds,
};

verus! {

proof fn lemma_is_char_boundary(s: Seq<u8>, i: int)
    requires
        valid_utf8(s),
        0 <= i <= s.len(),
        boundary(s, i),
    ensures
        is_char_boundary(s, i),
{
    is_char_boundary_start_end_of_seq(s);
    if 0 < i < s.len() {
        is_char_boundary_iff_not_is_continuation_byte(s, i);
    }
}

/// In valid UTF-8, the character that starts at a boundary fits in the text,
/// and the next one starts at a boundary too.
pub proof fn lemma_char_step(t: Seq<u8>, i: int)
    requires
        valid_utf8(t),
        0 <= i < t.len(),
        boundary(t, i),
    ensures
        i + utf8_width(t[i]) <= t.len(),
        char_len_at(t, i) == utf8_width(t[i]),
        boundary(t, i + char_len_at(t, i)),
{
    lemma_is_char_boundary(t, i);
    valid_utf8_split(t, i);
    let u = t.subrange(i, t.len() as int);
    assert(u[0] == t[i]);
    assert(valid_first_scalar(u));
    let l = length_of_first_scalar(u);
    assert(l == utf8_width(t[i]));
    let rest = pop_first_scalar(u);
    assert(valid_utf8(rest));
    assert(rest.len() == u.len() - l);
    if rest.len() > 0 {
        assert(valid_first_scalar(rest));
        assert(rest[0] == t[i + l]);
    }
}

/// The text between two boundaries of valid UTF-8 is valid UTF-8.
pub proof fn lemma_valid_sub(s: Seq<u8>, a: int, b: int)
    requires
        valid_utf8(s),
        0 <= a <= b <= s.len(),
        boundary(s, a),
        boundary(s, b),
    ensures
        valid_utf8(s.subrange(a, b)),
{
    lemma_is_char_boundary(s, a);
    valid_utf8_split(s, a);
    let u = s.subrange(a, s.len() as int);
    if b < s.len() && b > a {
        assert(u[b - a] == s[b]);
    }
    lemma_is_char_boundary(u, b - a);
    valid_utf8_split(u, b - a);
    assert(u.subrange(0, b - a) =~= s.subrange(a, b));
}

/// A boundary of the text between two boundaries is a boundary of the whole.
pub proof fn lemma_boundary_shift(s: Seq<u8>, a: int, b: int, k: int)
    requires
        0 <= a <= b <= s.len(),
        boundary(s, a),
        boundary(s, b),
        0 <= k <= b - a,
        boundary(s.subrange(a, b), k),
    ensures
        boundary(s, a + k),
{
    if 0 < k < b - a {
        assert(s.subrange(a, b)[k] == s[a + k]);
    }
}

/// The position after an ASCII byte of valid UTF-8 is a boundary.
pub proof fn lemma_after_ascii(t: Seq<u8>, i: int)
    requires
        valid_utf8(t),
        0 <= i < t.len(),
        t[i] < 0x80,
    ensures
        boundary(t, i + 1),
{
    lemma_char_step(t, i);
}

pub proof fn lemma_ws_end_boundary(t: Seq<u8>, i: int, stop_nl: bool)
    requires
        valid_utf8(t),
        0 <= i <= t.len(),
        boundary(t, i),
    ensures
        boundary(t, ws_end(t, i, stop_nl)),
    decreases t.len() - i,
{
    if 0 <= i < t.len() && is_ws_at(t, i) && !(stop_nl && t[i] == 10) {
        lemma_char_step(t, i);
        lemma_ws_end_boundary(t, i + char_len_at(t, i), stop_nl);
    }
}

pub proof fn lemma_nonws_end_boundary(t: Seq<u8>, i: int, acc: int)
    requires
        valid_utf8(t),
        0 <= acc <= i <= t.len(),
        boundary(t, i),
        boundary(t, acc),
    ensures
        boundary(t, nonws_end(t, i, acc)),
    decreases t.len() - i,
{
    if 0 <= i < t.len() {
        lemma_char_step(t, i);
        let w = char_len_at(t, i);
        lemma_nonws_end_boundary(t, i + w, if is_ws_at(t, i) { acc } else { i + w });
    }
}

/// The range that trimming leaves starts and ends at boundaries.
pub proof fn lemma_trim_boundary(t: Seq<u8>)
    requires
        valid_utf8(t),
    ensures
        boundary(t, trim_range(t).0),
        boundary(t, trim_range(t).1),
{
    lemma_ws_end_boundary(t, 0, false);
    lemma_nonws_end_boundary(t, 0, 0);
}

/// A run of an ASCII byte from a boundary ends at a boundary.
pub proof fn lemma_run_boundary(t: Seq<u8>, i: int, b: u8)
    requires
        valid_utf8(t),
        0 <= i <= t.len(),
        boundary(t, i),
        b < 0x80,
    ensures
        boundary(t, i + run_of(t, i, b)),
    decreases t.len() - i,
{
    if 0 <= i < t.len() && t[i] == b {
        lemma_after_ascii(t, i);
        lemma_run_boundary(t, i + 1, b);
    }
}

/// A byte below 0x80 stands at a boundary.
proof fn lemma_ascii_boundary(t: Seq<u8>, i: int)
    requires
        0 <= i < t.len(),
        t[i] < 0x80,
    ensures
        boundary(t, i),
{
}

/// The span that reading a line of valid UTF-8 gives starts and ends at
/// boundaries of the line.
pub proof fn lemma_new_boundaries(t: Seq<u8>)
    requires
        valid_utf8(t),
        t.len() <= usize::MAX,
    ensures
        spec_new(t) matches Some(p) ==> boundary(t, p.span.start as int) && boundary(t, p.span.end as int),
{
    if let Some(p) = spec_new(t) {
        lemma_new_marks(t);
        lemma_new_facts(t);
        let e = ws_end(t, 0, true);
        lemma_ws_end_bounds(t, 0, true);
        lemma_ws_end_boundary(t, 0, true);
        let len = t.len() as int;
        let lt = t.subrange(e, len);
        lemma_valid_sub(t, e, len);
        let n = lt.len();
        let x = p.span;
        let m = t.subrange(x.start as int, x.end as int);
        assert(block_marker(p.kind, t, x));
        if n > 0 {
            assert(lt[0] == t[e]);
        }
        match p.kind {
            Block::Atom(Atom::Blankline) => {
                if n > 0 {
                    lemma_after_ascii(t, e);
                }
            },
            Block::Atom(Atom::Attributes) => {},
            Block::Atom(Atom::ThematicBreak) => {
                lemma_trim_boundary(lt);
                lemma_trim_order(lt);
                let r = trim_range(lt);
                lemma_boundary_shift(t, e, len, r.0);
                lemma_boundary_shift(t, e, len, r.1);
            },
            Block::Leaf(Leaf::Paragraph) => {},
            Block::Leaf(Leaf::LinkDefinition) => {
                lemma_after_ascii(t, x.start - 1);
                lemma_ascii_boundary(t, x.end as int);
            },
            Block::Container(Container::Footnote) => {
                lemma_after_ascii(t, x.start - 1);
                lemma_ascii_boundary(t, x.end as int);
            },
            Block::Leaf(Leaf::CodeBlock) | Block::Container(Container::Div) => {
                let c = lt[0];
                lemma_after_ascii(lt, 0);
                lemma_run_of_bounds(lt, 1, c);
                lemma_run_boundary(lt, 1, c);
                let fl = 1 + run_of(lt, 1, c);
                let rest = lt.subrange(fl, n as int);
                lemma_valid_sub(lt, fl, n as int);
                lemma_trim_boundary(rest);
                lemma_trim_order(rest);
                let r = trim_range(rest);
                lemma_boundary_shift(lt, fl, n as int, r.0);
                lemma_boundary_shift(lt, fl, n as int, r.1);
                lemma_boundary_shift(t, e, len, fl + r.0);
                lemma_boundary_shift(t, e, len, fl + r.1);
            },
            _ => {
                // A marker of ASCII bytes: it starts at one and ends after one.
                assert(m.len() >= 1);
                assert(m[0] == t[x.start as int]);
                assert(m[m.len() - 1] == t[x.end - 1]);
                assert(m[0] < 0x80 && m[m.len() - 1] < 0x80);
                lemma_ascii_boundary(t, x.start as int);
                lemma_after_ascii(t, x.end - 1);
            },
        }
    }
}

// ---------------------------------------------------------------------------
// The spans of a parse.

/// Trimming a span cut out of valid UTF-8 at the start, or at the end, leaves
/// a span that can be cut out too.
proof fn lemma_trim_aligned(s: Seq<u8>, x: Span)
    requires
        valid_utf8(s),
        s.len() <= usize::MAX,
        aligned(s, x),
    ensures
        aligned(s, trim_start_of(s, x)),
        aligned(s, trim_end_of(s, x)),
{
    let t = s.subrange(x.start as int, x.end as int);
    lemma_valid_sub(s, x.start as int, x.end as int);
    lemma_ws_end_bounds(t, 0, false);
    lemma_ws_end_boundary(t, 0, false);
    lemma_boundary_shift(s, x.start as int, x.end as int, ws_end(t, 0, false));
    lemma_nonws_end_bounds(t, 0, 0);
    lemma_nonws_end_boundary(t, 0, 0);
    lemma_boundary_shift(s, x.start as int, x.end as int, nonws_end(t, 0, 0));
}

/// The inline lines of a leaf can be cut out of valid UTF-8, given that its
/// lines after the first can.
proof fn lemma_leaf_lines_aligned(s: Seq<u8>, lf: Leaf, ls: Seq<Span>)
    requires
        valid_utf8(s),
        s.len() <= usize::MAX,
        ls.len() >= 1,
        forall|i: int| 1 <= i < ls.len() ==> aligned(s, #[trigger] ls[i]),
    ensures
        spec_leaf_lines(s, lf, ls) matches Some(r) ==> forall|i: int| 0 <= i < r.len() ==> aligned(s, #[trigger] r[i]),
{
    if let Some(r) = spec_leaf_lines(s, lf, ls) {
        let n = ls.len();
        let trimmed = if lf == Leaf::CodeBlock {
            lemma_trim_aligned(s, ls[0]);
            ls.update(0, trim_start_of(s, ls[0]))
        } else {
            let a = trim_starts(s, ls);
            assert forall|i: int| 0 <= i < n implies aligned(s, #[trigger] a[i]) by {
                lemma_trim_aligned(s, ls[i]);
            }
            lemma_trim_aligned(s, a[n - 1]);
            a.update(n - 1, trim_end_of(s, a[n - 1]))
        };
        assert forall|i: int| 0 <= i < trimmed.len() implies aligned(s, #[trigger] trimmed[i]) by {
            if lf != Leaf::CodeBlock && i < n - 1 {
                assert(trimmed[i] == trim_starts(s, ls)[i]);
            }
        }
        assert forall|i: int| 0 <= i < r.len() implies aligned(s, #[trigger] r[i]) by {
            if r.len() < trimmed.len() {
                assert(r[i] == trimmed[i + 1]);
            } else {
                assert(r[i] == trimmed[i]);
            }
        }
    }
}

/// The lines that decide how far a block reaches were all cut out.
proof fn lemma_cont_cut(p: BlockParser, ls: Seq<Option<Seq<u8>>>, j: int)
    requires
        1 <= j,
    ensures
        cont_count(p, ls, j) matches Some(k) ==> forall|m: int|
            j <= m < j + k + 1 && m < ls.len() ==> (#[trigger] ls[m]) is Some,
    decreases ls.len() - j,
{
    if j < ls.len() {
        lemma_cont_cut(p, ls, j + 1);
    }
}

/// Every event recorded, and every block still open, has a span that can be
/// cut out of the text.
pub open spec fn spans_aligned(s: Seq<u8>, b: BuilderView) -> bool {
    &&& forall|i: int| 0 <= i < b.events.len() ==> aligned(s, (#[trigger] b.events[i]).span)
    &&& forall|i: int| 0 <= i < b.open.len() ==> aligned(s, (#[trigger] b.open[i]).1)
}

proof fn lemma_push_aligned(s: Seq<u8>, b: BuilderView, e: Event, b2: BuilderView)
    requires
        spans_aligned(s, b),
        aligned(s, e.span),
        b2.events == b.events.push(e),
        forall|i: int| 0 <= i < b2.open.len() ==> aligned(s, (#[trigger] b2.open[i]).1),
    ensures
        spans_aligned(s, b2),
{
    assert forall|i: int| 0 <= i < b2.events.len() implies aligned(s, (#[trigger] b2.events[i]).span) by {
        if i < b.events.len() {
            assert(b2.events[i] == b.events[i]);
        }
    }
}

proof fn lemma_enter_aligned(s: Seq<u8>, b: BuilderView, n: Node, x: Span)
    requires
        spans_aligned(s, b),
        aligned(s, x),
    ensures
        spans_aligned(s, b_enter(b, n, x)),
{
    let b2 = b_enter(b, n, x);
    assert forall|i: int| 0 <= i < b2.open.len() implies aligned(s, (#[trigger] b2.open[i]).1) by {
        if i < b.open.len() {
            assert(b2.open[i] == b.open[i]);
        }
    }
    lemma_push_aligned(s, b, Event { kind: EventKind::Enter(n), span: x }, b2);
}

proof fn lemma_exit_aligned(s: Seq<u8>, b: BuilderView)
    requires
        spans_aligned(s, b),
    ensures
        spans_aligned(s, b_exit(b)),
{
    if b.open.len() > 0 {
        let b2 = b_exit(b);
        let top = b.open[b.open.len() - 1];
        assert(aligned(s, top.1));
        assert forall|i: int| 0 <= i < b2.open.len() implies aligned(s, (#[trigger] b2.open[i]).1) by {
            assert(b2.open[i] == b.open[i]);
        }
        lemma_push_aligned(s, b, Event { kind: EventKind::Exit(top.0), span: top.1 }, b2);
    }
}

proof fn lemma_exit_n_aligned(s: Seq<u8>, b: BuilderView, n: nat)
    requires
        spans_aligned(s, b),
    ensures
        spans_aligned(s, exit_n(b, n)),
    decreases n,
{
    if n > 0 {
        lemma_exit_aligned(s, b);
        lemma_exit_n_aligned(s, b_exit(b), (n - 1) as nat);
    }
}

proof fn lemma_inlines_aligned(s: Seq<u8>, st: ParseState, xs: Seq<Span>)
    requires
        spans_aligned(s, st.tree),
        forall|i: int| 0 <= i < xs.len() ==> aligned(s, #[trigger] xs[i]),
    ensures
        spans_aligned(s, ps_inlines(st, xs).tree),
    decreases xs.len(),
{
    if xs.len() > 0 {
        let b2 = b_inline(st.tree, xs[0]);
        lemma_push_aligned(s, st.tree, Event { kind: EventKind::Inline, span: xs[0] }, b2);
        assert forall|i: int| 0 <= i < xs.drop_first().len() implies aligned(s, #[trigger] xs.drop_first()[i]) by {
            assert(xs.drop_first()[i] == xs[i + 1]);
        }
        lemma_inlines_aligned(s, ParseState { tree: b2, lists: st.lists }, xs.drop_first());
    }
}

/// A block keeps every span cut out of the text.
pub proof fn lemma_block_aligned(s: Seq<u8>, ls: Seq<Span>, st: ParseState)
    requires
        valid_utf8(s),
        spans_aligned(s, st.tree),
    ensures
        spec_block(s, ls, st) matches Some((st2, _)) ==> spans_aligned(s, st2.tree),
    decreases total_len(ls), 0int, 0int,
{
    if ls.len() > 0 && s.len() <= usize::MAX && wf_spans(s, ls) {
        let cl = cut_lines(s, ls);
        if let Some((p, lc)) = spec_read(cl) {
            lemma_read_count(cl);
            assert(cl[0] == cut(s, ls[0]));
            assert(span_in(s, ls[0]));
            let t = s.subrange(ls[0].start as int, ls[0].end as int);
            lemma_valid_sub(s, ls[0].start as int, ls[0].end as int);
            lemma_new_boundaries(t);
            lemma_new_facts(t);
            lemma_boundary_shift(s, ls[0].start as int, ls[0].end as int, p.span.start as int);
            lemma_boundary_shift(s, ls[0].start as int, ls[0].end as int, p.span.end as int);
            let span = block_span(ls, p);
            assert(aligned(s, span));
            lemma_block_lines(ls, p, lc);
            let ls3 = block_lines(ls, p, lc);
            let k = cont_count(p, cl, 1)->0;
            lemma_cont_cut(p, cl, 1);
            assert forall|i: int| 1 <= i < ls3.len() implies aligned(s, #[trigger] ls3[i]) by {
                assert(ls3[i] == ls[i]);
                assert(cl[i] == cut(s, ls[i]));
                assert(cl[i] is Some);
            }
            match p.kind {
                Block::Atom(a) => {
                    let b2 = b_atom(st.tree, a, span);
                    lemma_push_aligned(s, st.tree, Event { kind: EventKind::Atom(a), span }, b2);
                },
                Block::Leaf(lf) => {
                    if let Some(inl) = spec_leaf_lines(s, lf, ls3) {
                        lemma_leaf_lines_aligned(s, lf, ls3);
                        lemma_enter_aligned(s, st.tree, Node::Leaf(lf), span);
                        let st1 = ps_enter(st, Node::Leaf(lf), span);
                        lemma_inlines_aligned(s, st1, inl);
                        lemma_exit_aligned(s, ps_inlines(st1, inl).tree);
                    }
                },
                Block::Container(c) => {
                    let skip_chars: int = match c {
                        Container::Blockquote => 2,
                        Container::Div => 0,
                        _ => p.indent as int,
                    };
                    let inner: int = if c == Container::Div {
                        ls3.len() - 1
                    } else {
                        ls3.len() as int
                    };
                    let quote = c == Container::Blockquote;
                    if let Some(ls4) = spec_strip(s, ls3, skip_chars, quote) {
                        lemma_block_shrinks(s, ls, p, lc, skip_chars, quote, ls4, inner);
                        lemma_container_aligned(s, c, span, ls4.subrange(0, inner), st);
                    }
                },
            }
        }
    }
}

/// A container keeps every span cut out of the text.
pub proof fn lemma_container_aligned(s: Seq<u8>, c: Container, x: Span, ls: Seq<Span>, st: ParseState)
    requires
        valid_utf8(s),
        spans_aligned(s, st.tree),
        aligned(s, x),
    ensures
        spec_container(s, c, x, ls, st) matches Some(st2) ==> spans_aligned(s, st2.tree),
    decreases total_len(ls), 2int, 0int,
{
    if let Some(st1) = spec_open_list(st, c, x) {
        assert(spans_aligned(s, st1.tree)) by {
            if let Container::ListItem(ty) = c {
                let ln = Node::Container(Container::List(ty));
                if st.lists.len() == 0 || st.lists.last().depth < st.tree.open.len() {
                    lemma_enter_aligned(s, st.tree, ln, x);
                } else if st.lists.last().depth == st.tree.open.len() && st.lists.last().ty != ty {
                    lemma_exit_aligned(s, st.tree);
                    lemma_enter_aligned(s, b_exit(st.tree), ln, x);
                }
            }
        }
        lemma_enter_aligned(s, st1.tree, Node::Container(c), x);
        let st2 = ps_enter(st1, Node::Container(c), x);
        lemma_total_nonneg(ls);
        lemma_blocks_aligned(s, ls, st2);
        if let Some(st3) = spec_blocks(s, ls, st2) {
            if let Some(st4) = spec_close_list(st3) {
                assert(spans_aligned(s, st4.tree)) by {
                    lemma_exit_aligned(s, st3.tree);
                }
                lemma_exit_aligned(s, st4.tree);
            }
        }
    }
}

/// Blocks one after the other keep every span cut out of the text.
pub proof fn lemma_blocks_aligned(s: Seq<u8>, ls: Seq<Span>, st: ParseState)
    requires
        valid_utf8(s),
        spans_aligned(s, st.tree),
    ensures
        spec_blocks(s, ls, st) matches Some(st2) ==> spans_aligned(s, st2.tree),
    decreases total_len(ls), 1int, ls.len(),
{
    if ls.len() > 0 {
        lemma_block_aligned(s, ls, st);
        if let Some((st2, c)) = spec_block(s, ls, st) {
            if !(c <= 0 || c >= ls.len()) {
                lemma_total_split(ls, c);
                lemma_blocks_aligned(s, ls.subrange(c, ls.len() as int), st2);
            }
        }
    }
}

/// Every span of a parse of valid UTF-8 starts and ends at character
/// boundaries, within the text, so that it can be cut out.
pub proof fn lemma_parse_aligned(s: Seq<u8>)
    requires
        valid_utf8(s),
        spec_parse(s) is Some,
    ensures
        forall|i: int| 0 <= i < spec_parse(s)->0.len() ==> aligned(s, (#[trigger] spec_parse(s)->0[i]).span),
{
    let st0 = init_state();
    lemma_blocks_aligned(s, spec_lines(s), st0);
    let st = spec_blocks(s, spec_lines(s), st0)->0;
    lemma_exit_n_aligned(s, st.tree, st.lists.len());
}

} // verus!
