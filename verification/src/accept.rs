//! Which documents the parser accepts: every ASCII text without a `|` that is
//! at most 32768 bytes long.
use vstd::prelude::*;
use crate::block::{
    block_lines, block_span, cont_count, cut, cut_lines, has_end_delimiter, init_state,
    lemma_block_lines, lemma_block_shrinks, lemma_lines_structure, lemma_new_facts,
    lemma_nl_end, lemma_read_count, lemma_total_nonneg, lemma_total_split, lines_from, nl_end, ps_enter,
    spec_block, spec_blocks, spec_classify, spec_container, spec_continues, spec_leaf_lines,
    spec_lines, spec_new, spec_open_list, spec_parse, spec_read, spec_strip, span_in, total_len,
    trim_start_of, trim_starts, wf_spans, Block, BlockParser, Container, Leaf, Node, ParseState,
};
use crate::nesting::{
    lemma_block_frame, lemma_block_lines_in, lemma_container_frame, lemma_strip_in, one_line,
    single_lines, state_ok,
};
use crate::span::{sp, span_len, Span};
use crate::text::{boundary, lemma_ws_end_bounds, ws_end};
use crate::tree::replay;

verus! {

/// ASCII text without a `|`.
pub open spec fn plain(t: Seq<u8>) -> bool {
    forall|i: int| 0 <= i < t.len() ==> #[trigger] t[i] < 0x80 && t[i] != 0x7c
}

proof fn lemma_plain_boundary(t: Seq<u8>, i: int)
    requires
        plain(t),
        0 <= i <= t.len(),
    ensures
        boundary(t, i),
{
    if 0 < i < t.len() {
        assert(t[i] < 0x80);
    }
}

proof fn lemma_plain_sub(t: Seq<u8>, a: int, b: int)
    requires
        plain(t),
        0 <= a <= b <= t.len(),
    ensures
        plain(t.subrange(a, b)),
{
    assert forall|i: int| 0 <= i < b - a implies #[trigger] t.subrange(a, b)[i] < 0x80 && t.subrange(a, b)[i]
        != 0x7c by {
        assert(t.subrange(a, b)[i] == t[a + i]);
    }
}

/// In plain text every span within bounds can be cut out.
proof fn lemma_plain_cut(s: Seq<u8>, x: Span)
    requires
        plain(s),
        span_in(s, x),
    ensures
        cut(s, x) == Some(s.subrange(x.start as int, x.end as int)),
        plain(s.subrange(x.start as int, x.end as int)),
{
    lemma_plain_boundary(s, x.start as int);
    lemma_plain_boundary(s, x.end as int);
    lemma_plain_sub(s, x.start as int, x.end as int);
}

/// Every plain line can be read.
proof fn lemma_new_some(t: Seq<u8>)
    requires
        plain(t),
    ensures
        spec_new(t) is Some,
{
    lemma_ws_end_bounds(t, 0, true);
    let start = ws_end(t, 0, true);
    let lt = t.subrange(start, t.len() as int);
    if lt.len() > 0 {
        assert(lt[0] == t[start]);
    }
    assert(spec_classify(lt, start) is Some);
}

/// Whether each of the plain lines continues a block can be decided.
proof fn lemma_cont_some(p: BlockParser, ls: Seq<Option<Seq<u8>>>, j: int)
    requires
        1 <= j,
        forall|k: int| 1 <= k < ls.len() ==> (#[trigger] ls[k]) is Some && plain(ls[k]->0),
        !(p.kind matches Block::Container(Container::List(_))),
        has_end_delimiter(p.kind) ==> p.fence is Some,
    ensures
        cont_count(p, ls, j) is Some,
    decreases ls.len() - j,
{
    if j < ls.len() {
        let t = ls[j]->0;
        lemma_new_some(t);
        assert(spec_continues(p, t) is Some);
        lemma_cont_count_step(p, ls, j);
    }
}

proof fn lemma_cont_count_step(p: BlockParser, ls: Seq<Option<Seq<u8>>>, j: int)
    requires
        1 <= j < ls.len(),
        forall|k: int| 1 <= k < ls.len() ==> (#[trigger] ls[k]) is Some && plain(ls[k]->0),
        !(p.kind matches Block::Container(Container::List(_))),
        has_end_delimiter(p.kind) ==> p.fence is Some,
        spec_continues(p, ls[j]->0) is Some,
    ensures
        cont_count(p, ls, j) is Some,
    decreases ls.len() - j, 0int,
{
    if spec_continues(p, ls[j]->0) == Some(true) {
        lemma_cont_some(p, ls, j + 1);
    }
}

/// The first line of plain lines reads, and so does whether each next one
/// continues the block.
proof fn lemma_read_some(s: Seq<u8>, ls: Seq<Span>)
    requires
        plain(s),
        ls.len() >= 1,
        wf_spans(s, ls),
        s.len() <= usize::MAX,
    ensures
        spec_read(cut_lines(s, ls)) is Some,
{
    let cl = cut_lines(s, ls);
    assert forall|k: int| 0 <= k < cl.len() implies (#[trigger] cl[k]) is Some && plain(cl[k]->0) by {
        assert(cl[k] == cut(s, ls[k]));
        assert(span_in(s, ls[k]));
        lemma_plain_cut(s, ls[k]);
    }
    let t = cl[0]->0;
    lemma_new_some(t);
    let p = spec_new(t)->0;
    assert(span_in(s, ls[0]));
    lemma_new_facts(t);
    lemma_cont_some(p, cl, 1);
}

/// The total length of a non-empty sequence of spans is at least that of its
/// first one.
proof fn lemma_total_first(ls: Seq<Span>)
    requires
        ls.len() >= 1,
    ensures
        total_len(ls) >= span_len(ls[0]),
{
    lemma_total_nonneg(ls.drop_first());
}

proof fn lemma_total_lines(s: Seq<u8>, i: int)
    requires
        0 <= i <= s.len(),
        s.len() <= usize::MAX,
    ensures
        total_len(lines_from(s, i)) == s.len() - i,
    decreases s.len() - i,
{
    if i < s.len() {
        lemma_nl_end(s, i);
        let e = nl_end(s, i);
        lemma_total_lines(s, e);
        let ls = lines_from(s, i);
        assert(ls[0] == sp(i, e));
        assert(ls.drop_first() =~= lines_from(s, e));
    }
}

/// The bound on the depth of the open blocks that lets every list that opens
/// below them record its depth in a `u16`: each open block may take two
/// levels (a list and its item) per byte still to read.
pub open spec fn depth_room(st: ParseState, ls: Seq<Span>) -> bool {
    st.tree.open.len() + 2 * total_len(ls) <= 0x10000
}

/// A plain block parses.
pub proof fn lemma_block_some(s: Seq<u8>, ls: Seq<Span>, st: ParseState)
    requires
        plain(s),
        state_ok(s, st),
        wf_spans(s, ls),
        single_lines(s, ls),
        s.len() <= usize::MAX,
        depth_room(st, ls),
    ensures
        spec_block(s, ls, st) is Some,
    decreases total_len(ls), 0int, 0int,
{
    if ls.len() > 0 {
        lemma_read_some(s, ls);
        let (p, lc) = spec_read(cut_lines(s, ls))->0;
        lemma_read_count(cut_lines(s, ls));
        assert(cut_lines(s, ls)[0] == cut(s, ls[0]));
        assert(span_in(s, ls[0]));
        lemma_plain_cut(s, ls[0]);
        lemma_new_facts(s.subrange(ls[0].start as int, ls[0].end as int));
        lemma_block_lines_in(s, ls, p, lc);
        lemma_block_lines(ls, p, lc);
        let span = block_span(ls, p);
        let ls3 = block_lines(ls, p, lc);
        assert forall|k: int| 0 <= k < ls3.len() implies cut(s, #[trigger] ls3[k]) is Some by {
            assert(span_in(s, ls3[k]));
            lemma_plain_cut(s, ls3[k]);
        }
        match p.kind {
            Block::Atom(_) => {},
            Block::Leaf(lf) => {
                let n = ls3.len();
                let a = trim_starts(s, ls3);
                assert(span_in(s, ls3[n - 1]));
                lemma_ws_end_bounds(s.subrange(ls3[n - 1].start as int, ls3[n - 1].end as int), 0, false);
                assert(a[n - 1] == trim_start_of(s, ls3[n - 1]));
                lemma_plain_cut(s, a[n - 1]);
                assert(spec_leaf_lines(s, lf, ls3) is Some);
            },
            Block::Container(c) => {
                let skip_chars: int = match c {
                    Container::Blockquote => 2,
                    Container::Div => 0,
                    _ => p.indent as int,
                };
                let inner: int = if c == Container::Div {
                    ls3.len() - 1
                } else {
                    ls3.len() as int
                };
                let quote = c == Container::Blockquote;
                assert(spec_strip(s, ls3, skip_chars, quote) is Some);
                let ls4 = spec_strip(s, ls3, skip_chars, quote)->0;
                lemma_block_shrinks(s, ls, p, lc, skip_chars, quote, ls4, inner);
                lemma_strip_in(s, ls3, skip_chars, quote);
                let kids = ls4.subrange(0, inner);
                assert(wf_spans(s, kids) && single_lines(s, kids)) by {
                    assert forall|i: int| 0 <= i < kids.len() implies span_in(s, #[trigger] kids[i])
                        && one_line(s, kids[i]) by {
                        assert(kids[i] == ls4[i]);
                    }
                }
                lemma_container_some(s, c, span, kids, st);
            },
        }
    }
}

/// A plain container parses.
pub proof fn lemma_container_some(s: Seq<u8>, c: Container, x: Span, ls: Seq<Span>, st: ParseState)
    requires
        plain(s),
        state_ok(s, st),
        wf_spans(s, ls),
        single_lines(s, ls),
        span_in(s, x),
        s.len() <= usize::MAX,
        st.tree.open.len() + 2 + 2 * total_len(ls) <= 0x10000,
    ensures
        spec_container(s, c, x, ls, st) is Some,
    decreases total_len(ls), 2int, 0int,
{
    lemma_total_nonneg(ls);
    lemma_container_frame(s, c, x, ls, st);
    assert(spec_open_list(st, c, x) is Some);
    let st1 = spec_open_list(st, c, x)->0;
    assert(st1.tree.open.len() <= st.tree.open.len() + 1);
    let st2 = ps_enter(st1, Node::Container(c), x);
    lemma_blocks_some(s, ls, st2);
}

/// Plain blocks one after the other parse.
pub proof fn lemma_blocks_some(s: Seq<u8>, ls: Seq<Span>, st: ParseState)
    requires
        plain(s),
        state_ok(s, st),
        wf_spans(s, ls),
        single_lines(s, ls),
        s.len() <= usize::MAX,
        depth_room(st, ls),
    ensures
        spec_blocks(s, ls, st) is Some,
    decreases total_len(ls), 1int, ls.len(),
{
    if ls.len() > 0 {
        lemma_block_some(s, ls, st);
        lemma_block_frame(s, ls, st);
        let (st2, c) = spec_block(s, ls, st)->0;
        if !(c <= 0 || c >= ls.len()) {
            lemma_total_split(ls, c);
            let rest = ls.subrange(c, ls.len() as int);
            lemma_total_first(ls.subrange(0, c));
            assert(ls.subrange(0, c)[0] == ls[0]);
            assert(st2.tree.open.len() <= st.tree.open.len() || span_len(ls[0]) >= 1) by {
                if span_len(ls[0]) == 0 {
                    lemma_empty_line_atom(s, ls, st);
                }
            }
            assert(wf_spans(s, rest) && single_lines(s, rest)) by {
                assert forall|i: int| 0 <= i < rest.len() implies span_in(s, #[trigger] rest[i])
                    && one_line(s, rest[i]) by {
                    assert(rest[i] == ls[i + c]);
                }
            }
            lemma_blocks_some(s, rest, st2);
        }
    }
}

/// A block that starts with an empty line is a blank line, and opens nothing.
proof fn lemma_empty_line_atom(s: Seq<u8>, ls: Seq<Span>, st: ParseState)
    requires
        ls.len() >= 1,
        wf_spans(s, ls),
        s.len() <= usize::MAX,
        span_len(ls[0]) == 0,
        spec_block(s, ls, st) is Some,
    ensures
        (spec_block(s, ls, st)->0).0.tree.open == st.tree.open,
{
    assert(span_in(s, ls[0]));
    let t = s.subrange(ls[0].start as int, ls[0].end as int);
    assert(t.len() == 0);
    assert(cut_lines(s, ls)[0] == cut(s, ls[0]));
    assert(spec_new(t)->0.kind == Block::Atom(crate::block::Atom::Blankline));
}

/// Every ASCII text without a `|` that is at most 32768 bytes long parses.
pub proof fn lemma_parse_accepts(s: Seq<u8>)
    requires
        plain(s),
        s.len() <= 0x8000,
    ensures
        spec_parse(s) is Some,
{
    lemma_lines_structure(s);
    let ls = spec_lines(s);
    assert forall|i: int| 0 <= i < ls.len() implies one_line(s, #[trigger] ls[i]) by {
        assert forall|j: int| ls[i].start <= j < ls[i].end - 1 implies #[trigger] s[j] != 0x0a by {
            assert(ls[i].start <= j < ls[i].end - 1);
        }
    }
    lemma_total_lines(s, 0);
    let st0 = init_state();
    assert(replay(st0.tree.events) == Some(st0.tree.open));
    lemma_blocks_some(s, ls, st0);
}

} // verus!
