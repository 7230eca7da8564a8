//! Laws of reading lines into blocks, each stated by what the text holds:
//! which lines are thematic breaks, which lines a list item takes in, how a
//! container's continuation lines lose their indentation, how an ordered
//! marker is numbered, and when list items share a list.
use vstd::prelude::*;
use crate::block::{
    block_lines, block_span, lemma_block_lines, lemma_block_shrinks, lemma_read_count,
    lemma_total_nonneg, lemma_total_split, ps_enter, ps_inlines, spec_block, spec_blocks,
    spec_close_list, spec_container, spec_leaf_lines, total_len, wf_spans, Node,
    all_roman, cut, cut_lines, in_class, is_digit, is_lower, is_roman,
    is_upper, spec_continues, spec_new, spec_open_list, spec_ordered, spec_read,
    spec_strip, strip_line, cont_count, class_run, numbering_of, quoted, thematic, Atom,
    Block, BlockParser, Container, Leaf, ListType, ParseState,
};
use crate::span::Span;
use crate::tree::{b_atom, b_enter, b_exit, b_inline, BuilderView, Event, EventKind};
use crate::text::{all_ws, char_len_at, is_ws_at, lemma_char_len, lemma_ws_end_bounds, ws_count, ws_end};
use crate::{OrderedListNumbering, OrderedListStyle};

verus! {

// ---------------------------------------------------------------------------
// Which lines a list item takes in.

/// A line that reads as paragraph text continues a list item, whatever its
/// indentation.
pub proof fn lemma_item_continues_on_text(p: BlockParser, t: Seq<u8>)
    requires
        p.kind matches Block::Container(Container::ListItem(_)),
        spec_new(t) matches Some(q) && q.kind == Block::Leaf(Leaf::Paragraph),
    ensures
        spec_continues(p, t) == Some(true),
{
}

/// Which lines continue a list item: a blank line, a line indented more than
/// the item, or a line that reads as paragraph text; no other line does.
pub proof fn lemma_item_continues_exactly(p: BlockParser, t: Seq<u8>)
    requires
        p.kind matches Block::Container(Container::ListItem(_)),
        spec_new(t) is Some,
    ensures
        spec_continues(p, t) == Some(
            all_ws(t) || ws_count(t, 0, false) > p.indent || spec_new(t)->0.kind == Block::Leaf(
                Leaf::Paragraph,
            ),
        ),
{
}

/// A list item whose next line reads as paragraph text uses at least both
/// lines.
pub proof fn lemma_item_takes_text_line(ls: Seq<Option<Seq<u8>>>)
    requires
        ls.len() >= 2,
        ls[0] matches Some(t0) && spec_new(t0) matches Some(p) && p.kind is Container
            && p.kind->Container_0 is ListItem,
        ls[1] matches Some(t1) && spec_new(t1) matches Some(q) && q.kind == Block::Leaf(
            Leaf::Paragraph,
        ),
    ensures
        spec_read(ls) matches Some((_, lc)) ==> lc >= 2,
{
    let p = spec_new(ls[0]->0)->0;
    lemma_item_continues_on_text(p, ls[1]->0);
    assert(spec_continues(p, ls[1]->0) == Some(true));
    crate::block::lemma_cont_count_bounds(p, ls, 2);
    if let Some(k) = cont_count(p, ls, 2) {
        assert(cont_count(p, ls, 1) == Some(k + 1));
    }
}

// ---------------------------------------------------------------------------
// How an ordered marker is numbered.

/// Whether every byte of `d` is a roman digit of the given case.
pub open spec fn roman_digits(d: Seq<u8>, upper: bool) -> bool {
    forall|j: int| 0 <= j < d.len() ==> is_roman(#[trigger] d[j], upper)
}

/// The numbering of an ordered list marker follows from its digits alone,
/// whatever its style: decimal digits are `Decimal`; digits that are all
/// lower-case (upper-case) roman digits are `RomanLower` (`RomanUpper`); other
/// lower-case (upper-case) letters are `AlphaLower` (`AlphaUpper`). The digits
/// are what stands between the optional `(` and the closing `.` or `)`.
pub proof fn lemma_ordered_numbering(lt: Seq<u8>)
    requires
        lt.len() >= 1,
        lt.len() <= usize::MAX,
        spec_ordered(lt) is Some,
    ensures
        ({
            let (num, st, len) = spec_ordered(lt)->0;
            let o: int = if st == OrderedListStyle::ParenParen { 1 } else { 0 };
            let d = lt.subrange(o, len - 1);
            &&& d.len() >= 1
            &&& (lt[0] == 0x28 <==> st == OrderedListStyle::ParenParen)
            &&& (lt[len - 1] == 0x2e <==> st == OrderedListStyle::Period)
            &&& (st != OrderedListStyle::Period ==> lt[len - 1] == 0x29)
            &&& is_digit(d[0]) ==> num == OrderedListNumbering::Decimal
            &&& roman_digits(d, false) ==> num == OrderedListNumbering::RomanLower
            &&& roman_digits(d, true) ==> num == OrderedListNumbering::RomanUpper
            &&& (is_lower(d[0]) && !roman_digits(d, false)) ==> num == OrderedListNumbering::AlphaLower
            &&& (is_upper(d[0]) && !roman_digits(d, true)) ==> num == OrderedListNumbering::AlphaUpper
        }),
{
    let (num, st, len) = spec_ordered(lt)->0;
    let paren = lt[0] == 0x28;
    let i0: int = if paren { 2 } else { 1 };
    let f = lt[i0 - 1];
    let num0 = numbering_of(f)->0;
    crate::block::lemma_class_run(lt, i0, num0);
    let post = i0 + class_run(lt, i0, num0);
    assert(post < lt.len());
    assert(len == post + 1);
    let o: int = if st == OrderedListStyle::ParenParen { 1 } else { 0 };
    assert(o == i0 - 1);
    let d = lt.subrange(o, len - 1);
    assert(d[0] == f);
    assert(roman_digits(d, false) <==> all_roman(
        lt,
        i0 - 1,
        post,
        false,
    )) by {
        if forall|j: int| 0 <= j < d.len() ==> is_roman(#[trigger] d[j], false) {
            assert forall|k: int| i0 - 1 <= k < post implies is_roman(#[trigger] lt[k], false) by {
                assert(d[k - o] == lt[k]);
            }
        }
        if all_roman(lt, i0 - 1, post, false) {
            assert forall|j: int| 0 <= j < d.len() implies is_roman(#[trigger] d[j], false) by {
                assert(d[j] == lt[j + o]);
            }
        }
    }
    assert(roman_digits(d, true) <==> all_roman(
        lt,
        i0 - 1,
        post,
        true,
    )) by {
        if forall|j: int| 0 <= j < d.len() ==> is_roman(#[trigger] d[j], true) {
            assert forall|k: int| i0 - 1 <= k < post implies is_roman(#[trigger] lt[k], true) by {
                assert(d[k - o] == lt[k]);
            }
        }
        if all_roman(lt, i0 - 1, post, true) {
            assert forall|j: int| 0 <= j < d.len() implies is_roman(#[trigger] d[j], true) by {
                assert(d[j] == lt[j + o]);
            }
        }
    }
    // Roman digits of either case are letters of that case, never decimal digits.
    assert(is_roman(f, false) ==> is_lower(f));
    assert(is_roman(f, true) ==> is_upper(f));
    assert(d.len() >= 1);
    assert(is_digit(d[0]) ==> num == OrderedListNumbering::Decimal);
    assert(roman_digits(d, false) ==> num == OrderedListNumbering::RomanLower);
    assert(roman_digits(d, true) ==> num == OrderedListNumbering::RomanUpper);
    assert((is_lower(d[0]) && !roman_digits(d, false)) ==> num == OrderedListNumbering::AlphaLower);
    assert((is_upper(d[0]) && !roman_digits(d, true)) ==> num == OrderedListNumbering::AlphaUpper);
}

/// Every byte of `d` is a digit of the same kind: all decimal digits, all
/// lower-case letters or all upper-case letters.
pub open spec fn one_kind_of_digits(d: Seq<u8>) -> bool {
    ||| forall|j: int| 0 <= j < d.len() ==> is_digit(#[trigger] d[j])
    ||| forall|j: int| 0 <= j < d.len() ==> is_lower(#[trigger] d[j])
    ||| forall|j: int| 0 <= j < d.len() ==> is_upper(#[trigger] d[j])
}

proof fn lemma_class_run_exact(t: Seq<u8>, i: int, p: int, n: OrderedListNumbering)
    requires
        0 <= i <= p < t.len(),
        forall|j: int| i <= j < p ==> in_class(#[trigger] t[j], n),
        !in_class(t[p], n),
    ensures
        class_run(t, i, n) == p - i,
    decreases p - i,
{
    if i < p {
        lemma_class_run_exact(t, i + 1, p, n);
    }
}

/// A marker of one kind of digits, opened by `(` or not, closed by `)` (or `.`
/// where there is no `(`), and followed by white space or nothing, is an
/// ordered list marker that ends after its closing byte.
pub proof fn lemma_ordered_marker_read(lt: Seq<u8>, o: int, p: int)
    requires
        o == 0 || o == 1,
        o < p < lt.len(),
        lt.len() <= usize::MAX,
        o == 1 ==> lt[0] == 0x28 && lt[p] == 0x29,
        o == 0 ==> lt[p] == 0x29 || lt[p] == 0x2e,
        one_kind_of_digits(lt.subrange(o, p)),
        p + 1 == lt.len() || is_ws_at(lt, p + 1),
    ensures
        spec_ordered(lt) matches Some((_, _, len)) && len == p + 1,
{
    let d = lt.subrange(o, p);
    assert(d[0] == lt[o]);
    let f = lt[o];
    let i0 = o + 1;
    if o == 0 {
        assert(is_digit(lt[0]) || is_lower(lt[0]) || is_upper(lt[0]));
        assert(lt[0] != 0x28);
    }
    let num0 = numbering_of(f)->0;
    assert forall|j: int| i0 <= j < p implies in_class(#[trigger] lt[j], num0) by {
        assert(d[j - o] == lt[j]);
    }
    lemma_class_run_exact(lt, i0, p, num0);
}

// ---------------------------------------------------------------------------
// How continuation lines lose their indentation.

/// A continuation line of a container that is not kept lazily loses its own
/// leading white space and then the container's prefix of `k` characters, but
/// never its newline: where that white space is made of one-byte characters,
/// the stripped line starts that many bytes plus `k` later, or at the line's
/// newline if that comes first; it keeps its end.
pub proof fn lemma_strip_drops_indentation(
    s: Seq<u8>,
    ls: Seq<Span>,
    k: int,
    quote: bool,
    i: int,
)
    requires
        spec_strip(s, ls, k, quote) is Some,
        1 <= i < ls.len(),
        ls[i].start <= ls[i].end <= s.len(),
        k >= 0,
        ({
            let t = s.subrange(ls[i].start as int, ls[i].end as int);
            &&& ws_count(t, 0, false) == ws_end(t, 0, false)
            &&& quote ==> quoted(t)
        }),
    ensures
        ({
            let t = s.subrange(ls[i].start as int, ls[i].end as int);
            let nl: int = if t.len() > 0 && t[t.len() - 1] == 0x0a { 1 } else { 0 };
            let w = ws_end(t, 0, false);
            let want = w + k;
            let skip = if want < t.len() - nl { want } else { t.len() - nl };
            let r = spec_strip(s, ls, k, quote)->0[i];
            &&& r.start == ls[i].start + skip
            &&& r.end == ls[i].end
        }),
{
    let t = s.subrange(ls[i].start as int, ls[i].end as int);
    lemma_ws_end_bounds(t, 0, false);
    assert(spec_strip(s, ls, k, quote)->0[i] == strip_line(s, ls[i], k, quote));
}

// ---------------------------------------------------------------------------
// Which lines are thematic breaks.

/// `-` or `*`.
pub open spec fn is_rule_mark(b: u8) -> bool {
    b == 0x2d || b == 0x2a
}

/// A space or a tab.
pub open spec fn is_gap(b: u8) -> bool {
    b == 0x20 || b == 0x09
}

/// Number of `-` and `*` in `t[i..]`.
pub open spec fn marks_from(t: Seq<u8>, i: int) -> int
    decreases t.len() - i,
{
    if 0 <= i < t.len() {
        (if is_rule_mark(t[i]) { 1int } else { 0int }) + marks_from(t, i + 1)
    } else {
        0
    }
}

/// A line of `-` and `*` marks, spaces and tabs, ended by at most a newline,
/// with at least three marks.
pub open spec fn rule_line(t: Seq<u8>) -> bool {
    &&& forall|i: int|
        0 <= i < t.len() ==> is_rule_mark(#[trigger] t[i]) || is_gap(t[i]) || (t[i] == 0x0a && i
            == t.len() - 1)
    &&& marks_from(t, 0) >= 3
}

proof fn lemma_marks_shift(t: Seq<u8>, e: int, k: int)
    requires
        0 <= e <= t.len(),
        0 <= k,
    ensures
        marks_from(t.subrange(e, t.len() as int), k) == marks_from(t, e + k),
    decreases t.len() - e - k,
{
    if e + k < t.len() {
        assert(t.subrange(e, t.len() as int)[k] == t[e + k]);
        lemma_marks_shift(t, e, k + 1);
    }
}

/// The indentation of a rule line ends at its first mark, and no mark comes
/// before it.
proof fn lemma_rule_indent(t: Seq<u8>, i: int)
    requires
        rule_line(t),
        0 <= i <= t.len(),
        marks_from(t, i) >= 1,
    ensures
        i <= ws_end(t, i, true) < t.len(),
        is_rule_mark(t[ws_end(t, i, true)]),
        marks_from(t, ws_end(t, i, true)) == marks_from(t, i),
    decreases t.len() - i,
{
    if i < t.len() {
        if is_gap(t[i]) {
            lemma_char_len(t, i);
            lemma_rule_indent(t, i + 1);
        } else if !is_rule_mark(t[i]) {
            assert(t[i] == 0x0a && i == t.len() - 1);
            assert(marks_from(t, i + 1) == 0);
        }
    }
}

/// Past the first mark, reading a rule line for a thematic break counts every
/// mark, wherever the white space between them falls.
proof fn lemma_rule_counts(lt: Seq<u8>, j: int, n: int)
    requires
        forall|i: int|
            0 <= i < lt.len() ==> is_rule_mark(#[trigger] lt[i]) || is_gap(lt[i]) || (lt[i] == 0x0a
                && i == lt.len() - 1),
        1 <= j <= lt.len(),
    ensures
        thematic(lt, j, n) == (n + marks_from(lt, j) >= 3),
    decreases lt.len() - j,
{
    if j < lt.len() {
        lemma_char_len(lt, j);
        lemma_rule_counts(lt, j + 1, if is_rule_mark(lt[j]) { n + 1 } else { n });
        if !is_rule_mark(lt[j]) {
            assert(is_ws_at(lt, j));
            assert(char_len_at(lt, j) == 1);
        }
    }
}

/// A line of at least three `-` or `*` marks with nothing but spaces and tabs
/// around and between them (and at most a final newline) is a thematic break,
/// wherever the spaces fall.
pub proof fn lemma_rule_line_is_break(t: Seq<u8>)
    requires
        rule_line(t),
    ensures
        spec_new(t) matches Some(p) && p.kind == Block::Atom(Atom::ThematicBreak),
{
    lemma_rule_indent(t, 0);
    let e = ws_end(t, 0, true);
    let lt = t.subrange(e, t.len() as int);
    assert(lt[0] == t[e]);
    assert forall|i: int|
        0 <= i < lt.len() implies is_rule_mark(#[trigger] lt[i]) || is_gap(lt[i]) || (lt[i] == 0x0a
            && i == lt.len() - 1) by {
        assert(lt[i] == t[e + i]);
    }
    lemma_marks_shift(t, e, 0);
    lemma_marks_shift(t, e, 1);
    lemma_rule_counts(lt, 1, 1);
    assert(thematic(lt, 1, 1));
}

/// Reading a line for a thematic break from byte `j` on passes only over white
/// space and marks, so it succeeds only where the marks it counted and those
/// still ahead make at least three.
proof fn lemma_thematic_counts_marks(t: Seq<u8>, j: int, n: int)
    requires
        0 <= j <= t.len(),
        thematic(t, j, n),
    ensures
        n + marks_from(t, j) >= 3,
    decreases t.len() - j,
{
    if j < t.len() {
        lemma_char_len(t, j);
        if is_rule_mark(t[j]) {
            lemma_thematic_counts_marks(t, j + 1, n + 1);
        } else {
            let w = char_len_at(t, j);
            lemma_thematic_counts_marks(t, j + w, n);
            assert(marks_from(t, j) >= marks_from(t, j + w)) by {
                if w >= 2 {
                    assert(!is_rule_mark(t[j]));
                    assert(marks_from(t, j) == marks_from(t, j + 1));
                    assert(!is_rule_mark(t[j + 1]));
                    if w >= 3 {
                        assert(marks_from(t, j + 1) == marks_from(t, j + 2));
                        assert(!is_rule_mark(t[j + 2]));
                    }
                }
            }
        }
    }
}

proof fn lemma_marks_from_mono(t: Seq<u8>, i: int, j: int)
    requires
        0 <= i <= j,
    ensures
        marks_from(t, i) >= marks_from(t, j),
    decreases j - i,
{
    if i < j {
        lemma_marks_from_mono(t, i + 1, j);
    }
}

/// A line read as a thematic break holds at least three `-` or `*` marks.
pub proof fn lemma_break_has_three_marks(t: Seq<u8>)
    requires
        spec_new(t) matches Some(p) && p.kind == Block::Atom(Atom::ThematicBreak),
    ensures
        marks_from(t, 0) >= 3,
{
    let e = ws_end(t, 0, true);
    lemma_ws_end_bounds(t, 0, true);
    let lt = t.subrange(e, t.len() as int);
    assert(lt.len() > 0);
    assert(is_rule_mark(lt[0]));
    assert(thematic(lt, 1, 1));
    lemma_thematic_counts_marks(lt, 1, 1);
    lemma_marks_shift(t, e, 0);
    lemma_marks_shift(t, e, 1);
    assert(lt[0] == t[e]);
    lemma_marks_from_mono(t, 0, e);
}

/// An ASCII byte that is a `-` or `*` mark or white space.
pub open spec fn rule_byte(b: u8) -> bool {
    b >= 0x80 || is_rule_mark(b) || (0x09 <= b <= 0x0d) || b == 0x20
}

/// Stepping over a white-space character passes only over bytes that are
/// white space or not ASCII.
proof fn lemma_ws_char_bytes(t: Seq<u8>, j: int)
    requires
        0 <= j < t.len(),
        is_ws_at(t, j),
    ensures
        forall|k: int| j <= k < j + char_len_at(t, j) ==> rule_byte(#[trigger] t[k]),
{
    lemma_char_len(t, j);
}

proof fn lemma_ws_end_bytes(t: Seq<u8>, i: int, stop_nl: bool)
    requires
        0 <= i <= t.len(),
    ensures
        forall|k: int| i <= k < ws_end(t, i, stop_nl) ==> rule_byte(#[trigger] t[k]),
    decreases t.len() - i,
{
    if 0 <= i < t.len() && is_ws_at(t, i) && !(stop_nl && t[i] == 10) {
        lemma_ws_char_bytes(t, i);
        lemma_char_len(t, i);
        lemma_ws_end_bytes(t, i + char_len_at(t, i), stop_nl);
    }
}

proof fn lemma_thematic_bytes(t: Seq<u8>, j: int, n: int)
    requires
        0 <= j <= t.len(),
        thematic(t, j, n),
    ensures
        forall|k: int| j <= k < t.len() ==> rule_byte(#[trigger] t[k]),
    decreases t.len() - j,
{
    if j < t.len() {
        lemma_char_len(t, j);
        if is_rule_mark(t[j]) {
            lemma_thematic_bytes(t, j + 1, n + 1);
        } else {
            lemma_ws_char_bytes(t, j);
            lemma_thematic_bytes(t, j + char_len_at(t, j), n);
        }
    }
}

/// A line read as a thematic break holds nothing but `-` and `*` marks and
/// white space: each of its ASCII bytes is one of those.
pub proof fn lemma_break_is_marks_and_space(t: Seq<u8>)
    requires
        spec_new(t) matches Some(p) && p.kind == Block::Atom(Atom::ThematicBreak),
    ensures
        forall|k: int| 0 <= k < t.len() ==> rule_byte(#[trigger] t[k]),
{
    let e = ws_end(t, 0, true);
    lemma_ws_end_bounds(t, 0, true);
    lemma_ws_end_bytes(t, 0, true);
    let lt = t.subrange(e, t.len() as int);
    assert(lt.len() > 0 && is_rule_mark(lt[0]) && thematic(lt, 1, 1));
    lemma_thematic_bytes(lt, 1, 1);
    assert forall|k: int| 0 <= k < t.len() implies rule_byte(#[trigger] t[k]) by {
        if k >= e {
            assert(t[k] == lt[k - e]);
        }
    }
}

// ---------------------------------------------------------------------------
// When list items share a list.

/// `b2` has recorded every event of `b`, in order, and perhaps more after them.
pub open spec fn extends(b: BuilderView, b2: BuilderView) -> bool {
    b.events.len() <= b2.events.len() && b2.events.subrange(0, b.events.len() as int) == b.events
}

proof fn lemma_extends_trans(a: BuilderView, b: BuilderView, c: BuilderView)
    requires
        extends(a, b),
        extends(b, c),
    ensures
        extends(a, c),
{
    assert(c.events.subrange(0, a.events.len() as int) =~= c.events.subrange(0, b.events.len() as int).subrange(
        0,
        a.events.len() as int,
    ));
}

proof fn lemma_extends_push(b: BuilderView, b2: BuilderView, e: Event)
    requires
        b2.events == b.events.push(e),
    ensures
        extends(b, b2),
{
    assert(b2.events.subrange(0, b.events.len() as int) =~= b.events);
}

proof fn lemma_extends_refl(b: BuilderView)
    ensures
        extends(b, b),
{
    assert(b.events.subrange(0, b.events.len() as int) =~= b.events);
}

proof fn lemma_exit_extends(b: BuilderView)
    ensures
        extends(b, b_exit(b)),
{
    lemma_extends_refl(b);
    if b.open.len() > 0 {
        lemma_extends_push(b, b_exit(b), Event { kind: EventKind::Exit(b.open.last().0), span: b.open.last().1 });
    }
}

proof fn lemma_inlines_extend(st: ParseState, xs: Seq<Span>)
    ensures
        extends(st.tree, ps_inlines(st, xs).tree),
    decreases xs.len(),
{
    lemma_extends_refl(st.tree);
    if xs.len() > 0 {
        let b2 = b_inline(st.tree, xs[0]);
        lemma_extends_push(st.tree, b2, Event { kind: EventKind::Inline, span: xs[0] });
        let st1 = ParseState { tree: b2, lists: st.lists };
        lemma_inlines_extend(st1, xs.drop_first());
        lemma_extends_trans(st.tree, b2, ps_inlines(st1, xs.drop_first()).tree);
    }
}

/// Parsing a block only adds events after those already recorded.
pub proof fn lemma_block_extends(s: Seq<u8>, ls: Seq<Span>, st: ParseState)
    ensures
        spec_block(s, ls, st) matches Some((st2, _)) ==> extends(st.tree, st2.tree),
    decreases total_len(ls), 0int, 0int,
{
    lemma_extends_refl(st.tree);
    if ls.len() > 0 && s.len() <= usize::MAX && wf_spans(s, ls) {
        let cl = cut_lines(s, ls);
        if let Some((p, lc)) = spec_read(cl) {
            lemma_read_count(cl);
            assert(cl[0] == cut(s, ls[0]));
            lemma_block_lines(ls, p, lc);
            let span = block_span(ls, p);
            let ls3 = block_lines(ls, p, lc);
            match p.kind {
                Block::Atom(a) => {
                    lemma_extends_push(st.tree, b_atom(st.tree, a, span), Event { kind: EventKind::Atom(a), span });
                },
                Block::Leaf(lf) => {
                    if let Some(inl) = spec_leaf_lines(s, lf, ls3) {
                        let st1 = ps_enter(st, Node::Leaf(lf), span);
                        lemma_extends_push(st.tree, st1.tree, Event { kind: EventKind::Enter(Node::Leaf(lf)), span });
                        lemma_inlines_extend(st1, inl);
                        let st2 = ps_inlines(st1, inl);
                        lemma_exit_extends(st2.tree);
                        lemma_extends_trans(st.tree, st1.tree, st2.tree);
                        lemma_extends_trans(st.tree, st2.tree, b_exit(st2.tree));
                    }
                },
                Block::Container(c) => {
                    let skip_chars: int = match c {
                        Container::Blockquote => 2,
                        Container::Div => 0,
                        _ => p.indent as int,
                    };
                    let inner: int = if c == Container::Div {
                        ls3.len() - 1
                    } else {
                        ls3.len() as int
                    };
                    let quote = c == Container::Blockquote;
                    if let Some(ls4) = spec_strip(s, ls3, skip_chars, quote) {
                        lemma_block_shrinks(s, ls, p, lc, skip_chars, quote, ls4, inner);
                        lemma_container_extends(s, c, span, ls4.subrange(0, inner), st);
                    }
                },
            }
        }
    }
}

/// Parsing a container only adds events after those already recorded.
pub proof fn lemma_container_extends(s: Seq<u8>, c: Container, x: Span, ls: Seq<Span>, st: ParseState)
    ensures
        spec_container(s, c, x, ls, st) matches Some(st2) ==> extends(st.tree, st2.tree),
    decreases total_len(ls), 2int, 0int,
{
    if let Some(st1) = spec_open_list(st, c, x) {
        assert(extends(st.tree, st1.tree)) by {
            lemma_extends_refl(st.tree);
            if let Container::ListItem(ty) = c {
                let e = Event { kind: EventKind::Enter(Node::Container(Container::List(ty))), span: x };
                if st.lists.len() == 0 || st.lists.last().depth < st.tree.open.len() {
                    lemma_extends_push(st.tree, b_enter(st.tree, Node::Container(Container::List(ty)), x), e);
                } else if st.lists.last().depth == st.tree.open.len() && st.lists.last().ty != ty {
                    lemma_exit_extends(st.tree);
                    let bx = b_exit(st.tree);
                    lemma_extends_push(bx, b_enter(bx, Node::Container(Container::List(ty)), x), e);
                    lemma_extends_trans(st.tree, bx, st1.tree);
                }
            }
        }
        let st2 = ps_enter(st1, Node::Container(c), x);
        lemma_extends_push(st1.tree, st2.tree, Event { kind: EventKind::Enter(Node::Container(c)), span: x });
        lemma_extends_trans(st.tree, st1.tree, st2.tree);
        lemma_total_nonneg(ls);
        lemma_blocks_extend(s, ls, st2);
        if let Some(st3) = spec_blocks(s, ls, st2) {
            lemma_extends_trans(st.tree, st2.tree, st3.tree);
            if let Some(st4) = spec_close_list(st3) {
                assert(extends(st3.tree, st4.tree)) by {
                    lemma_extends_refl(st3.tree);
                    lemma_exit_extends(st3.tree);
                }
                lemma_extends_trans(st.tree, st3.tree, st4.tree);
                lemma_exit_extends(st4.tree);
                lemma_extends_trans(st.tree, st4.tree, b_exit(st4.tree));
            }
        }
    }
}

/// Parsing blocks one after the other only adds events after those already
/// recorded.
pub proof fn lemma_blocks_extend(s: Seq<u8>, ls: Seq<Span>, st: ParseState)
    ensures
        spec_blocks(s, ls, st) matches Some(st2) ==> extends(st.tree, st2.tree),
    decreases total_len(ls), 1int, ls.len(),
{
    lemma_extends_refl(st.tree);
    if ls.len() > 0 {
        lemma_block_extends(s, ls, st);
        if let Some((st2, c)) = spec_block(s, ls, st) {
            if !(c <= 0 || c >= ls.len()) {
                lemma_total_split(ls, c);
                lemma_blocks_extend(s, ls.subrange(c, ls.len() as int), st2);
                if let Some(st3) = spec_blocks(s, ls.subrange(c, ls.len() as int), st2) {
                    lemma_extends_trans(st.tree, st2.tree, st3.tree);
                }
            }
        }
    }
}

/// A list item of the same type as the open list that is the innermost open
/// block joins that list: no list is entered or exited for it, and the first
/// event it adds enters the item itself.
pub proof fn lemma_same_type_item_joins_list(
    s: Seq<u8>,
    ty: ListType,
    x: Span,
    ls: Seq<Span>,
    st: ParseState,
)
    requires
        st.lists.len() > 0,
        st.lists.last().depth == st.tree.open.len(),
        st.lists.last().ty == ty,
    ensures
        spec_open_list(st, Container::ListItem(ty), x) == Some(st),
        spec_container(s, Container::ListItem(ty), x, ls, st) matches Some(st2) ==> {
            &&& st2.tree.events.len() > st.tree.events.len()
            &&& st2.tree.events[st.tree.events.len() as int] == (Event {
                kind: EventKind::Enter(Node::Container(Container::ListItem(ty))),
                span: x,
            })
        },
{
    let c = Container::ListItem(ty);
    lemma_container_extends(s, c, x, ls, st);
    let st2 = ps_enter(st, Node::Container(c), x);
    lemma_blocks_extend(s, ls, st2);
    lemma_total_nonneg(ls);
    if let Some(st5) = spec_container(s, c, x, ls, st) {
        let st3 = spec_blocks(s, ls, st2)->0;
        let st4 = spec_close_list(st3)->0;
        lemma_exit_extends(st3.tree);
        lemma_extends_refl(st3.tree);
        assert(extends(st3.tree, st4.tree));
        lemma_exit_extends(st4.tree);
        lemma_extends_trans(st2.tree, st3.tree, st4.tree);
        lemma_extends_trans(st2.tree, st4.tree, st5.tree);
        let n = st.tree.events.len() as int;
        assert(st2.tree.events[n] == st5.tree.events.subrange(0, n + 1)[n]);
    }
}

/// A list item that no open list takes (none is open as deep as the
/// innermost open block) enters a list of its own type, with its marker as the
/// list's span, before anything else; one of another type than the open list
/// that is the innermost open block first exits that list.
pub proof fn lemma_item_starts_list(s: Seq<u8>, ty: ListType, x: Span, ls: Seq<Span>, st: ParseState)
    requires
        st.lists.len() == 0 || 1 <= st.lists.last().depth <= st.tree.open.len(),
        st.lists.len() == 0 || st.lists.last().depth < st.tree.open.len() || st.lists.last().ty != ty,
    ensures
        spec_container(s, Container::ListItem(ty), x, ls, st) matches Some(st2) ==> {
            let n = st.tree.events.len() as int;
            let enter_list = Event {
                kind: EventKind::Enter(Node::Container(Container::List(ty))),
                span: x,
            };
            if st.lists.len() == 0 || st.lists.last().depth < st.tree.open.len() {
                st2.tree.events.len() > n && st2.tree.events[n] == enter_list
            } else {
                &&& st2.tree.events.len() > n + 1
                &&& st2.tree.events[n] == (Event {
                    kind: EventKind::Exit(st.tree.open.last().0),
                    span: st.tree.open.last().1,
                })
                &&& st2.tree.events[n + 1] == enter_list
            }
        },
{
    let c = Container::ListItem(ty);
    if let Some(st5) = spec_container(s, c, x, ls, st) {
        let st1 = spec_open_list(st, c, x)->0;
        let st2 = ps_enter(st1, Node::Container(c), x);
        lemma_blocks_extend(s, ls, st2);
        lemma_total_nonneg(ls);
        let st3 = spec_blocks(s, ls, st2)->0;
        let st4 = spec_close_list(st3)->0;
        lemma_exit_extends(st3.tree);
        lemma_extends_refl(st3.tree);
        assert(extends(st3.tree, st4.tree));
        lemma_exit_extends(st4.tree);
        lemma_extends_push(st1.tree, st2.tree, Event { kind: EventKind::Enter(Node::Container(c)), span: x });
        lemma_extends_trans(st1.tree, st2.tree, st3.tree);
        lemma_extends_trans(st1.tree, st3.tree, st4.tree);
        lemma_extends_trans(st1.tree, st4.tree, st5.tree);
        let n = st.tree.events.len() as int;
        if st.lists.len() == 0 || st.lists.last().depth < st.tree.open.len() {
            assert(st1.tree.events[n] == st5.tree.events.subrange(0, st1.tree.events.len() as int)[n]);
        } else {
            assert(st.tree.open.len() > 0);
            assert(st1.tree.events[n] == st5.tree.events.subrange(0, st1.tree.events.len() as int)[n]);
            assert(st1.tree.events[n + 1] == st5.tree.events.subrange(0, st1.tree.events.len() as int)[n + 1]);
        }
    }
}

} // verus!
