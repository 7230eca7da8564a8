//! Block-level structure of a document: which lines form which blocks, and how
//! blocks nest.
use vstd::prelude::*;
use vstd::slice::slice_subrange;
use vstd::string::StringSliceAdditionalSpecFns;
use crate::attr::{attr_len, valid};
use crate::span::{sp, span_len, Span};
use crate::tree::{b_atom, b_enter, b_exit, b_inline, well_nested, BuilderView, Event, Tree, TreeBuilder};
use crate::accept::{lemma_parse_accepts, plain};
use crate::boundaries::lemma_parse_aligned;
use vstd::utf8::{encode_utf8_valid_utf8, valid_utf8};
use crate::markers::{block_marker, event_marked, lemma_new_marks, lemma_parse_marks, lists_headed};
use crate::nesting::{
    inlines_single, inlines_trimmed, items_in_lists, leaves_end_clean, lemma_parse_well_formed,
};
use crate::order::{inlines_in_order, lemma_parse_inlines_in_order};
use crate::text::{
    all_ws, boundary, char_len, char_len_at, count_run, has_ws, is_boundary, is_ws, is_ws_at,
    lemma_char_len, lemma_run_of_bounds, lemma_trim_order, lemma_ws_end_bounds, lemma_ws_end_split, run_of, trim,
    trim_end, trim_end_pos, trim_range, trim_start_pos, ws_count, ws_end, ws_run, any_ws,
};
use crate::{OrderedListNumbering, OrderedListStyle};

verus! {

/// A node of the block tree: a container of blocks or a leaf of inline content.
#[derive(Clone, Copy, Debug, PartialEq, Eq)]
pub enum Node {
    Container(Container),
    Leaf(Leaf),
}

#[derive(Clone, Copy, Debug, PartialEq, Eq)]
pub enum Block {
    /// An atomic block, containing no children elements.
    Atom(Atom),
    /// A leaf block, containing only inline elements.
    Leaf(Leaf),
    /// A container block, containing children blocks.
    Container(Container),
}

#[derive(Clone, Copy, Debug, PartialEq, Eq)]
pub enum Atom {
    /// A line with no non-whitespace characters.
    Blankline,
    /// A list of attributes.
    Attributes,
    /// A thematic break.
    ThematicBreak,
}

#[derive(Clone, Copy, Debug, PartialEq, Eq)]
pub enum Leaf {
    /// Span is empty, before first character of paragraph.
    /// Each inline is a line.
    Paragraph,
    /// Span is `#` characters.
    /// Each inline is a line.
    Heading,
    /// Span is first `|` character.
    /// Each inline is a line (row).
    Table,
    /// Span is the link tag.
    /// Inlines are lines of the URL.
    LinkDefinition,
    /// Span is language specifier.
    /// Each inline is a line.
    CodeBlock,
}

#[derive(Clone, Copy, Debug, PartialEq, Eq)]
pub enum Container {
    /// Span is `>`.
    Blockquote,
    /// Span is class specifier, possibly empty.
    Div,
    /// Span is the list marker of the first list item in the list.
    List(ListType),
    /// Span is the list marker.
    ListItem(ListType),
    /// Span is footnote tag.
    Footnote,
}

#[derive(Clone, Copy, Debug, PartialEq, Eq, Structural)]
pub enum ListType {
    Unordered(u8),
    Ordered(OrderedListNumbering, OrderedListStyle),
    Task,
    Description,
}

/// The first line of a block, read: its indentation (in characters), its kind,
/// the span of its marker relative to the start of the line, and for a fenced
/// block the fence character and length.
#[derive(Clone, Copy, Debug, PartialEq, Eq)]
pub struct BlockParser {
    pub indent: usize,
    pub kind: Block,
    pub span: Span,
    pub fence: Option<(u8, usize)>,
}

// ---------------------------------------------------------------------------
// Reading the first line of a block.

pub open spec fn paragraph() -> (Block, Span) {
    (Block::Leaf(Leaf::Paragraph), sp(0, 0))
}

/// `#` marks: the run of `#` must end the line or be followed by white space;
/// the span is the `#` characters.
pub open spec fn spec_heading(lt: Seq<u8>, start: int) -> (Block, Span) {
    let k = run_of(lt, 0, 0x23);
    if k == lt.len() || is_ws_at(lt, k) {
        (Block::Leaf(Leaf::Heading), sp(start, start + k))
    } else {
        paragraph()
    }
}

/// `>` alone, or followed by white space; the span is the `>`.
pub open spec fn spec_blockquote(lt: Seq<u8>, start: int) -> (Block, Span) {
    if lt.len() == 1 || is_ws_at(lt, 1) {
        (Block::Container(Container::Blockquote), sp(start, start + 1))
    } else {
        paragraph()
    }
}

/// A line that starts and ends with `|`, the last one not escaped; `None` where
/// reading its end would slice the line inside a character or before its start.
pub open spec fn spec_table(lt: Seq<u8>, start: int) -> Option<(Block, Span)> {
    let n = lt.len();
    if !boundary(lt, n - 1) {
        None
    } else if lt[n - 1] != 0x7c {
        Some(paragraph())
    } else if n < 2 || !boundary(lt, n - 2) {
        None
    } else if lt[n - 2] == 0x5c {
        Some(paragraph())
    } else {
        Some((Block::Leaf(Leaf::Table), sp(start, start + 1)))
    }
}

/// First index `j >= i` at which `]:` stands.
pub open spec fn find_close(t: Seq<u8>, i: int) -> Option<int>
    decreases t.len() - i,
{
    if 0 <= i && i + 1 < t.len() {
        if t[i] == 0x5d && t[i + 1] == 0x3a {
            Some(i)
        } else {
            find_close(t, i + 1)
        }
    } else {
        None
    }
}

/// `[tag]:` starts a link definition, `[^tag]:` a footnote.
pub open spec fn spec_reference(lt: Seq<u8>, start: int) -> (Block, Span) {
    match find_close(lt, 1) {
        None => paragraph(),
        Some(j) => if j > 1 && lt[1] == 0x5e {
            (Block::Container(Container::Footnote), sp(start + 2, start + j))
        } else {
            (Block::Leaf(Leaf::LinkDefinition), sp(start + 1, start + j))
        },
    }
}

/// At least three `-` or `*` from byte `i` on, counting `n` already seen, with
/// nothing but white space between them.
pub open spec fn thematic(t: Seq<u8>, i: int, n: int) -> bool
    decreases t.len() - i,
{
    if 0 <= i < t.len() {
        if t[i] == 0x2d || t[i] == 0x2a {
            thematic(t, i + 1, n + 1)
        } else if is_ws_at(t, i) {
            thematic(t, i + char_len_at(t, i), n)
        } else {
            false
        }
    } else {
        n >= 3
    }
}

/// `- `, `* ` or `+ `, possibly followed by a task box `[ ]`, `[x]` or `[X]`;
/// the span is the marker, with the box where there is one.
pub open spec fn spec_bullet(lt: Seq<u8>, start: int, c: u8) -> (Block, Span) {
    if !(lt.len() == 1 || is_ws_at(lt, 1)) {
        paragraph()
    } else {
        let p = 1 + char_len_at(lt, 1);
        let task = lt.len() > 1 && p + 2 < lt.len() && lt[p] == 0x5b && (lt[p + 1] == 0x78
            || lt[p + 1] == 0x58 || lt[p + 1] == 0x20) && lt[p + 2] == 0x5d && (p + 3 == lt.len()
            || is_ws_at(lt, p + 3));
        if task {
            (Block::Container(Container::ListItem(ListType::Task)), sp(start, start + p + 3))
        } else {
            (Block::Container(Container::ListItem(ListType::Unordered(c))), sp(start, start + 1))
        }
    }
}

/// Whether byte `b` occurs in `t`.
pub open spec fn contains_byte(t: Seq<u8>, b: u8) -> bool {
    exists|j: int| 0 <= j < t.len() && t[j] == b
}

/// A fence of at least three `` ` ``, `~` or `:`, followed by a specifier without
/// white space or backticks.
pub open spec fn spec_fenced(lt: Seq<u8>, start: int, c: u8) -> (Block, Span) {
    let fl = 1 + run_of(lt, 1, c);
    let rest = lt.subrange(fl, lt.len() as int);
    let r = trim_range(rest);
    let lang = rest.subrange(r.0, r.1);
    if !has_ws(lang, 0) && !contains_byte(lang, 0x60) && fl >= 3 {
        (
            if c == 0x3a {
                Block::Container(Container::Div)
            } else {
                Block::Leaf(Leaf::CodeBlock)
            },
            sp(start + fl + r.0, start + fl + r.1),
        )
    } else {
        paragraph()
    }
}

pub open spec fn is_digit(b: u8) -> bool {
    0x30 <= b <= 0x39
}

pub open spec fn is_lower(b: u8) -> bool {
    0x61 <= b <= 0x7a
}

pub open spec fn is_upper(b: u8) -> bool {
    0x41 <= b <= 0x5a
}

pub open spec fn is_roman(b: u8, upper: bool) -> bool {
    if upper {
        b == 0x49 || b == 0x56 || b == 0x58 || b == 0x4c || b == 0x43 || b == 0x44 || b == 0x4d
    } else {
        b == 0x69 || b == 0x76 || b == 0x78 || b == 0x6c || b == 0x63 || b == 0x64 || b == 0x6d
    }
}

/// Whether byte `b` belongs to the digits of numbering `n`.
pub open spec fn in_class(b: u8, n: OrderedListNumbering) -> bool {
    match n {
        OrderedListNumbering::Decimal => is_digit(b),
        OrderedListNumbering::AlphaLower => is_lower(b),
        OrderedListNumbering::AlphaUpper => is_upper(b),
        OrderedListNumbering::RomanLower => is_roman(b, false),
        OrderedListNumbering::RomanUpper => is_roman(b, true),
    }
}

/// Number of bytes of class `n` in a row from byte `i` on.
pub open spec fn class_run(t: Seq<u8>, i: int, n: OrderedListNumbering) -> int
    decreases t.len() - i,
{
    if 0 <= i < t.len() && in_class(t[i], n) {
        1 + class_run(t, i + 1, n)
    } else {
        0
    }
}

/// Whether every byte in `t[i..j]` is a roman digit.
pub open spec fn all_roman(t: Seq<u8>, i: int, j: int, upper: bool) -> bool {
    forall|k: int| i <= k < j ==> is_roman(#[trigger] t[k], upper)
}

/// The numbering that the first digit `f` announces.
pub open spec fn numbering_of(f: u8) -> Option<OrderedListNumbering> {
    if is_digit(f) {
        Some(OrderedListNumbering::Decimal)
    } else if is_lower(f) {
        Some(OrderedListNumbering::AlphaLower)
    } else if is_upper(f) {
        Some(OrderedListNumbering::AlphaUpper)
    } else if is_roman(f, false) {
        Some(OrderedListNumbering::RomanLower)
    } else if is_roman(f, true) {
        Some(OrderedListNumbering::RomanUpper)
    } else {
        None
    }
}

/// An ordered list marker such as `1.`, `a)` or `(iv)`, followed by white space
/// or the end of the line: its numbering, its style and its length in bytes.
pub open spec fn spec_ordered(lt: Seq<u8>) -> Option<(OrderedListNumbering, OrderedListStyle, usize)> {
    let paren = lt[0] == 0x28;
    let i0: int = if paren { 2 } else { 1 };
    if paren && lt.len() < 2 {
        None
    } else {
        let f = lt[i0 - 1];
        match numbering_of(f) {
            None => None,
            Some(num) => {
                let m = class_run(lt, i0, num);
                let post = i0 + m;
                if post >= lt.len() {
                    None
                } else {
                    let p = lt[post];
                    let style = if paren {
                        if p == 0x29 {
                            Some(OrderedListStyle::ParenParen)
                        } else {
                            None
                        }
                    } else if p == 0x29 {
                        Some(OrderedListStyle::Paren)
                    } else if p == 0x2e {
                        Some(OrderedListStyle::Period)
                    } else {
                        None
                    };
                    match style {
                        None => None,
                        Some(st) => {
                            let numbering = if num == OrderedListNumbering::AlphaLower
                                && all_roman(lt, i0 - 1, post, false) {
                                OrderedListNumbering::RomanLower
                            } else if num == OrderedListNumbering::AlphaUpper && all_roman(
                                lt,
                                i0 - 1,
                                post,
                                true,
                            ) {
                                OrderedListNumbering::RomanUpper
                            } else {
                                num
                            };
                            if post + 1 == lt.len() || is_ws_at(lt, post + 1) {
                                Some((numbering, st, (post + 1) as usize))
                            } else {
                                None
                            }
                        },
                    }
                }
            },
        }
    }
}

/// The kind, marker span and fence of a line whose indentation, `start`
/// bytes long, has been cut off, leaving `lt`; `None` where the line is a table
/// row that cannot be read. Only an empty rest, or one that starts with a
/// newline, is a blank line.
pub open spec fn spec_classify(lt: Seq<u8>, start: int) -> Option<
    (Block, Span, Option<(u8, usize)>),
> {
    let n = lt.len();
    if n == 0 {
        Some((Block::Atom(Atom::Blankline), sp(start, start), None))
    } else {
        let c = lt[0];
        if c == 0x0a {
            Some((Block::Atom(Atom::Blankline), sp(start, start + 1), None))
        } else if c == 0x23 {
            let r = spec_heading(lt, start);
            Some((r.0, r.1, None))
        } else if c == 0x3e {
            let r = spec_blockquote(lt, start);
            Some((r.0, r.1, None))
        } else if c == 0x7b {
            if attr_len(lt) == trim_end_pos(lt) {
                Some((Block::Atom(Atom::Attributes), sp(start, start + n), None))
            } else {
                Some((paragraph().0, paragraph().1, None))
            }
        } else if c == 0x7c {
            match spec_table(lt, start) {
                None => None,
                Some(r) => Some((r.0, r.1, None)),
            }
        } else if c == 0x5b {
            let r = spec_reference(lt, start);
            Some((r.0, r.1, None))
        } else if (c == 0x2d || c == 0x2a) && thematic(lt, 1, 1) {
            let r = trim_range(lt);
            Some((Block::Atom(Atom::ThematicBreak), sp(start + r.0, start + r.1), None))
        } else if c == 0x2d || c == 0x2a || c == 0x2b {
            let r = spec_bullet(lt, start, c);
            Some((r.0, r.1, None))
        } else if c == 0x3a && (n == 1 || is_ws_at(lt, 1)) {
            Some(
                (
                    Block::Container(Container::ListItem(ListType::Description)),
                    sp(start, start + 1),
                    None,
                ),
            )
        } else if c == 0x60 || c == 0x3a || c == 0x7e {
            let r = spec_fenced(lt, start, c);
            Some((r.0, r.1, Some((c, (1 + run_of(lt, 1, c)) as usize))))
        } else {
            match spec_ordered(lt) {
                None => Some((paragraph().0, paragraph().1, None)),
                Some((num, st, len)) => Some(
                    (
                        Block::Container(Container::ListItem(ListType::Ordered(num, st))),
                        sp(start, start + len),
                        None,
                    ),
                ),
            }
        }
    }
}

/// The first line `t` of a block, read: its indentation, the white space
/// before the first other character or a newline, is counted in characters and
/// cut off at its end; `None` where the rest is a table row that cannot be
/// read.
pub open spec fn spec_new(t: Seq<u8>) -> Option<BlockParser> {
    let indent = ws_count(t, 0, true);
    let start = ws_end(t, 0, true);
    match spec_classify(t.subrange(start, t.len() as int), start) {
        None => None,
        Some((kind, span, fence)) => Some(BlockParser { indent: indent as usize, kind, span, fence }),
    }
}


// Executable reading of the first line of a block.

fn para() -> (r: (Block, Span))
    ensures
        r == paragraph(),
{
    (Block::Leaf(Leaf::Paragraph), Span::new(0, 0))
}

fn heading(lt: &[u8], start: usize) -> (r: (Block, Span))
    requires
        lt@.len() >= 1,
        lt@[0] == 0x23,
        start + lt@.len() <= usize::MAX,
    ensures
        r == spec_heading(lt@, start as int),
{
    let k = count_run(lt, 0, 0x23);
    if k == lt.len() || is_ws(lt, k) {
        (Block::Leaf(Leaf::Heading), Span::by_len(start, k))
    } else {
        para()
    }
}

fn blockquote(lt: &[u8], start: usize) -> (r: (Block, Span))
    requires
        lt@.len() >= 1,
        start + lt@.len() <= usize::MAX,
    ensures
        r == spec_blockquote(lt@, start as int),
{
    if lt.len() == 1 || is_ws(lt, 1) {
        (Block::Container(Container::Blockquote), Span::by_len(start, 1))
    } else {
        para()
    }
}

fn table(lt: &[u8], start: usize) -> (r: Option<(Block, Span)>)
    requires
        lt@.len() >= 1,
        start + lt@.len() <= usize::MAX,
    ensures
        r == spec_table(lt@, start as int),
{
    let n = lt.len();
    if !is_boundary(lt, n - 1) {
        None
    } else if lt[n - 1] != 0x7c {
        Some(para())
    } else if n < 2 || !is_boundary(lt, n - 2) {
        None
    } else if lt[n - 2] == 0x5c {
        Some(para())
    } else {
        Some((Block::Leaf(Leaf::Table), Span::by_len(start, 1)))
    }
}

fn reference(lt: &[u8], start: usize) -> (r: (Block, Span))
    requires
        lt@.len() >= 1,
        start + lt@.len() <= usize::MAX,
    ensures
        r == spec_reference(lt@, start as int),
{
    let mut i: usize = 1;
    while i < lt.len() - 1
        invariant
            1 <= i <= lt@.len(),
            start + lt@.len() <= usize::MAX,
            find_close(lt@, 1) == find_close(lt@, i as int),
        decreases lt@.len() - i,
    {
        if lt[i] == 0x5d && lt[i + 1] == 0x3a {
            if i > 1 && lt[1] == 0x5e {
                return (Block::Container(Container::Footnote), Span::new(start + 2, start + i));
            } else {
                return (Block::Leaf(Leaf::LinkDefinition), Span::new(start + 1, start + i));
            }
        }
        i = i + 1;
    }
    para()
}

fn is_thematic(lt: &[u8]) -> (r: bool)
    requires
        lt@.len() >= 1,
    ensures
        r == thematic(lt@, 1, 1),
{
    let mut i: usize = 1;
    let mut n: usize = 1;
    while i < lt.len()
        invariant
            1 <= i <= lt@.len(),
            n <= i,
            thematic(lt@, 1, 1) == thematic(lt@, i as int, n as int),
        decreases lt@.len() - i,
    {
        if lt[i] == 0x2d || lt[i] == 0x2a {
            n = n + 1;
            i = i + 1;
        } else if is_ws(lt, i) {
            let w = char_len(lt, i);
            i = i + w;
        } else {
            return false;
        }
    }
    n >= 3
}

fn bullet(lt: &[u8], start: usize, c: u8) -> (r: (Block, Span))
    requires
        lt@.len() >= 1,
        start + lt@.len() <= usize::MAX,
    ensures
        r == spec_bullet(lt@, start as int, c),
{
    let n = lt.len();
    if !(n == 1 || is_ws(lt, 1)) {
        return para();
    }
    let mut p: usize = 0;
    let task = if n > 1 {
        p = 1 + char_len(lt, 1);
        p < n && n - p > 2 && lt[p] == 0x5b && (lt[p + 1] == 0x78 || lt[p + 1] == 0x58 || lt[p
            + 1] == 0x20) && lt[p + 2] == 0x5d && (p + 3 == n || is_ws(lt, p + 3))
    } else {
        false
    };
    if task {
        (Block::Container(Container::ListItem(ListType::Task)), Span::by_len(start, p + 3))
    } else {
        (Block::Container(Container::ListItem(ListType::Unordered(c))), Span::by_len(start, 1))
    }
}

fn has_byte(t: &[u8], b: u8) -> (r: bool)
    ensures
        r == contains_byte(t@, b),
{
    let mut i: usize = 0;
    while i < t.len()
        invariant
            i <= t@.len(),
            forall|j: int| 0 <= j < i ==> t@[j] != b,
        decreases t@.len() - i,
    {
        if t[i] == b {
            return true;
        }
        i = i + 1;
    }
    false
}

fn fenced(lt: &[u8], start: usize, c: u8) -> (r: (Block, Span, usize))
    requires
        lt@.len() >= 1,
        start + lt@.len() <= usize::MAX,
    ensures
        (r.0, r.1) == spec_fenced(lt@, start as int, c),
        r.2 == 1 + run_of(lt@, 1, c),
{
    let fl = 1 + count_run(lt, 1, c);
    let rest = slice_subrange(lt, fl, lt.len());
    let (a, b) = trim(rest);
    let lang = slice_subrange(rest, a, b);
    if !any_ws(lang, 0) && !has_byte(lang, 0x60) && fl >= 3 {
        let kind = if c == 0x3a {
            Block::Container(Container::Div)
        } else {
            Block::Leaf(Leaf::CodeBlock)
        };
        (kind, Span::new(start + fl + a, start + fl + b), fl)
    } else {
        let r = para();
        (r.0, r.1, fl)
    }
}

fn numbering(f: u8) -> (r: Option<OrderedListNumbering>)
    ensures
        r == numbering_of(f),
{
    if 0x30 <= f && f <= 0x39 {
        Some(OrderedListNumbering::Decimal)
    } else if 0x61 <= f && f <= 0x7a {
        Some(OrderedListNumbering::AlphaLower)
    } else if 0x41 <= f && f <= 0x5a {
        Some(OrderedListNumbering::AlphaUpper)
    } else if roman(f, false) {
        Some(OrderedListNumbering::RomanLower)
    } else if roman(f, true) {
        Some(OrderedListNumbering::RomanUpper)
    } else {
        None
    }
}

fn roman(b: u8, upper: bool) -> (r: bool)
    ensures
        r == is_roman(b, upper),
{
    if upper {
        b == 0x49 || b == 0x56 || b == 0x58 || b == 0x4c || b == 0x43 || b == 0x44 || b == 0x4d
    } else {
        b == 0x69 || b == 0x76 || b == 0x78 || b == 0x6c || b == 0x63 || b == 0x64 || b == 0x6d
    }
}

fn class_has(b: u8, n: OrderedListNumbering) -> (r: bool)
    ensures
        r == in_class(b, n),
{
    match n {
        OrderedListNumbering::Decimal => 0x30 <= b && b <= 0x39,
        OrderedListNumbering::AlphaLower => 0x61 <= b && b <= 0x7a,
        OrderedListNumbering::AlphaUpper => 0x41 <= b && b <= 0x5a,
        OrderedListNumbering::RomanLower => roman(b, false),
        OrderedListNumbering::RomanUpper => roman(b, true),
    }
}

fn count_class(t: &[u8], from: usize, n: OrderedListNumbering) -> (r: usize)
    requires
        from <= t@.len(),
    ensures
        r == class_run(t@, from as int, n),
        from + r <= t@.len(),
{
    let mut i = from;
    while i < t.len() && class_has(t[i], n)
        invariant
            from <= i <= t@.len(),
            class_run(t@, from as int, n) == (i - from) + class_run(t@, i as int, n),
        decreases t@.len() - i,
    {
        i = i + 1;
    }
    i - from
}

fn romans(t: &[u8], i: usize, j: usize, upper: bool) -> (r: bool)
    requires
        i <= j <= t@.len(),
    ensures
        r == all_roman(t@, i as int, j as int, upper),
{
    let mut k = i;
    while k < j
        invariant
            i <= k <= j,
            j <= t@.len(),
            forall|m: int| i <= m < k ==> is_roman(#[trigger] t@[m], upper),
        decreases j - k,
    {
        if !roman(t[k], upper) {
            return false;
        }
        k = k + 1;
    }
    true
}

fn ordered(lt: &[u8]) -> (r: Option<(OrderedListNumbering, OrderedListStyle, usize)>)
    requires
        lt@.len() >= 1,
    ensures
        r == spec_ordered(lt@),
        r matches Some((_, _, len)) ==> len <= lt@.len(),
{
    let n = lt.len();
    let paren = lt[0] == 0x28;
    let i0: usize = if paren { 2 } else { 1 };
    if paren && n < 2 {
        return None;
    }
    let f = lt[i0 - 1];
    let num = match numbering(f) {
        None => { return None; },
        Some(num) => num,
    };
    let m = count_class(lt, i0, num);
    let post = i0 + m;
    if post >= n {
        return None;
    }
    let p = lt[post];
    let style = if paren {
        if p == 0x29 {
            OrderedListStyle::ParenParen
        } else {
            return None;
        }
    } else if p == 0x29 {
        OrderedListStyle::Paren
    } else if p == 0x2e {
        OrderedListStyle::Period
    } else {
        return None;
    };
    let numbering = if matches!(num, OrderedListNumbering::AlphaLower) && romans(lt, i0 - 1, post, false) {
        OrderedListNumbering::RomanLower
    } else if matches!(num, OrderedListNumbering::AlphaUpper) && romans(lt, i0 - 1, post, true) {
        OrderedListNumbering::RomanUpper
    } else {
        num
    };
    if post + 1 == n || is_ws(lt, post + 1) {
        Some((numbering, style, post + 1))
    } else {
        None
    }
}

fn classify(lt: &[u8], start: usize) -> (r: Option<(Block, Span, Option<(u8, usize)>)>)
    requires
        start + lt@.len() <= usize::MAX,
    ensures
        r == spec_classify(lt@, start as int),
{
    let n = lt.len();
    if n == 0 {
        return Some((Block::Atom(Atom::Blankline), Span::empty_at(start), None));
    }
    let c = lt[0];
    if c == 0x0a {
        Some((Block::Atom(Atom::Blankline), Span::by_len(start, 1), None))
    } else if c == 0x23 {
        let r = heading(lt, start);
        Some((r.0, r.1, None))
    } else if c == 0x3e {
        let r = blockquote(lt, start);
        Some((r.0, r.1, None))
    } else if c == 0x7b {
        if valid(lt) == trim_end(lt) {
            Some((Block::Atom(Atom::Attributes), Span::by_len(start, n), None))
        } else {
            let r = para();
            Some((r.0, r.1, None))
        }
    } else if c == 0x7c {
        match table(lt, start) {
            None => None,
            Some(r) => Some((r.0, r.1, None)),
        }
    } else if c == 0x5b {
        let r = reference(lt, start);
        Some((r.0, r.1, None))
    } else if (c == 0x2d || c == 0x2a) && is_thematic(lt) {
        let (a, b) = trim(lt);
        Some((Block::Atom(Atom::ThematicBreak), Span::new(start + a, start + b), None))
    } else if c == 0x2d || c == 0x2a || c == 0x2b {
        let r = bullet(lt, start, c);
        Some((r.0, r.1, None))
    } else if c == 0x3a && (n == 1 || is_ws(lt, 1)) {
        Some(
            (
                Block::Container(Container::ListItem(ListType::Description)),
                Span::by_len(start, 1),
                None,
            ),
        )
    } else if c == 0x60 || c == 0x3a || c == 0x7e {
        let r = fenced(lt, start, c);
        Some((r.0, r.1, Some((c, r.2))))
    } else {
        match ordered(lt) {
            None => {
                let r = para();
                Some((r.0, r.1, None))
            },
            Some((num, st, len)) => Some(
                (
                    Block::Container(Container::ListItem(ListType::Ordered(num, st))),
                    Span::by_len(start, len),
                    None,
                ),
            ),
        }
    }
}

impl BlockParser {
    /// Reads the first line of a block; `None` where it is a table row that
    /// ends inside a character or is a lone `|`. A line is blank exactly where
    /// it holds nothing but white space (its only newline being its last byte).
    pub fn new(line: &[u8]) -> (r: Option<BlockParser>)
        ensures
            r == spec_new(line@),
            r matches Some(p) ==> block_marker(p.kind, line@, p.span),
            (forall|j: int| 0 <= j < line@.len() - 1 ==> line@[j] != 0x0a) ==> (r matches Some(p)
                ==> (p.kind == Block::Atom(Atom::Blankline) <==> all_ws(line@))),
    {
        proof {
            if forall|j: int| 0 <= j < line@.len() - 1 ==> line@[j] != 0x0a {
                lemma_blank_iff_white(line@);
            }
        }
        assert(line@.len() <= usize::MAX) by {
            assert(line.len() == line@.len());
        }
        proof {
            lemma_new_marks(line@);
        }
        let (start, indent) = ws_run(line, 0, true);
        let lt = slice_subrange(line, start, line.len());
        match classify(lt, start) {
            None => None,
            Some((kind, span, fence)) => Some(BlockParser { indent, kind, span, fence }),
        }
    }
}


// ---------------------------------------------------------------------------
// Which lines continue a block.

/// Whether the first character of line `t` that is not white space is `>`.
pub open spec fn quoted(t: Seq<u8>) -> bool {
    trim_start_pos(t) < t.len() && t[trim_start_pos(t)] == 0x3e
}

/// Whether line `t` continues the block that `p` started; `None` where the
/// line cannot be read. A block quote continues on quoted lines, and lazily
/// on lines that read as paragraph text.
pub open spec fn spec_continues(p: BlockParser, t: Seq<u8>) -> Option<bool> {
    let empty = all_ws(t);
    match p.kind {
        Block::Atom(_) => Some(false),
        Block::Leaf(Leaf::Paragraph) | Block::Leaf(Leaf::Heading) | Block::Leaf(Leaf::Table) => Some(
            !empty,
        ),
        Block::Leaf(Leaf::LinkDefinition) => Some(t.len() > 0 && t[0] == 0x20 && !empty),
        Block::Container(Container::Blockquote) => if quoted(t) {
            Some(true)
        } else {
            match spec_new(t) {
                None => None,
                Some(q) => Some(q.kind == Block::Leaf(Leaf::Paragraph)),
            }
        },
        Block::Container(Container::ListItem(_)) => if empty || ws_count(t, 0, false) > p.indent {
            Some(true)
        } else {
            match spec_new(t) {
                None => None,
                Some(q) => Some(q.kind == Block::Leaf(Leaf::Paragraph)),
            }
        },
        Block::Container(Container::Footnote) => Some(empty || ws_count(t, 0, false) > p.indent),
        Block::Container(Container::Div) | Block::Leaf(Leaf::CodeBlock) => match p.fence {
            None => None,
            Some((f, n)) => {
                let m = run_of(t, 0, f);
                let closes = (m >= n || m == t.len()) && (if m >= n {
                    n == t.len() || is_ws_at(t, n as int)
                } else {
                    true
                });
                Some(!closes)
            },
        },
        Block::Container(Container::List(_)) => None,
    }
}

/// How many of the lines `ls[j..]` in a row continue the block that `p`
/// started; a line is `None` where it cannot be cut from the source. `None`
/// where one of them cannot be read.
pub open spec fn cont_count(p: BlockParser, ls: Seq<Option<Seq<u8>>>, j: int) -> Option<int>
    decreases ls.len() - j,
{
    if !(1 <= j < ls.len()) {
        Some(0)
    } else {
        match ls[j] {
            None => None,
            Some(t) => match spec_continues(p, t) {
                None => None,
                Some(false) => Some(0),
                Some(true) => match cont_count(p, ls, j + 1) {
                    None => None,
                    Some(k) => Some(k + 1),
                },
            },
        }
    }
}

pub open spec fn has_end_delimiter(k: Block) -> bool {
    k == Block::Leaf(Leaf::CodeBlock) || k == Block::Container(Container::Div)
}

/// The block that starts with the first of the lines `ls`: how its first line
/// reads, and how many lines it uses (one more than it has for a fenced block,
/// for its closing fence, even where that is missing). `None` where the lines
/// cannot be read.
pub open spec fn spec_read(ls: Seq<Option<Seq<u8>>>) -> Option<(BlockParser, int)> {
    match ls[0] {
        None => None,
        Some(t) => match spec_new(t) {
            None => None,
            Some(p) => match cont_count(p, ls, 1) {
                None => None,
                Some(m) => Some((p, 1 + m + if has_end_delimiter(p.kind) { 1int } else { 0 })),
            },
        },
    }
}

/// The lines, as text that a reader gets.
pub open spec fn str_lines(lines: Seq<&str>) -> Seq<Option<Seq<u8>>> {
    lines.map_values(|l: &str| Some(l.spec_bytes()))
}

/// What `BlockParser::parse` returns for the lines: `None` for no lines, else the
/// indentation, kind and marker span of the first line and the number of lines
/// used; the outer `None` where the lines cannot be read.
pub open spec fn spec_block_parse(lines: Seq<&str>) -> Option<Option<(usize, Block, Span, usize)>> {
    if lines.len() == 0 {
        Some(None)
    } else {
        match spec_read(str_lines(lines)) {
            None => None,
            Some((p, n)) => Some(Some((p.indent, p.kind, p.span, n as usize))),
        }
    }
}

pub proof fn lemma_cont_count_bounds(p: BlockParser, ls: Seq<Option<Seq<u8>>>, j: int)
    requires
        1 <= j <= ls.len(),
    ensures
        cont_count(p, ls, j) matches Some(k) ==> 0 <= k <= ls.len() - j,
    decreases ls.len() - j,
{
    if j < ls.len() {
        lemma_cont_count_bounds(p, ls, j + 1);
    }
}

/// Facts about a line that reads as the start of a block, which the parser relies on.
pub proof fn lemma_new_facts(t: Seq<u8>)
    requires
        spec_new(t) is Some,
        t.len() <= usize::MAX,
    ensures
        ({
            let p = spec_new(t)->0;
            &&& p.span.start <= p.span.end <= t.len()
            &&& p.indent <= t.len()
            &&& !(p.kind is Container && p.kind->Container_0 is List)
            &&& has_end_delimiter(p.kind) ==> p.fence is Some
            &&& p.kind is Container ==> p.span.end >= 1
            &&& (p.kind == Block::Leaf(Leaf::LinkDefinition) || p.kind == Block::Container(
                Container::Footnote)) ==> p.span.end + 2 <= t.len() && t[p.span.end as int]
                == 0x5d && t[p.span.end + 1] == 0x3a
        }),
{
    let start = ws_end(t, 0, true);
    lemma_ws_end_bounds(t, 0, true);
    let lt = t.subrange(start, t.len() as int);
    let n = lt.len();
    if n > 0 {
        let c = lt[0];
        if c == 0x23 {
            lemma_run_of_bounds(lt, 0, 0x23);
            let k = run_of(lt, 0, 0x23);
            if k < n {
                lemma_char_len(lt, k);
            }
        } else if c == 0x3e {
            if n > 1 {
                lemma_char_len(lt, 1);
            }
        } else if c == 0x7c {
        } else if c == 0x5b {
            lemma_find_close(lt, 1);
        } else if (c == 0x2d || c == 0x2a) && thematic(lt, 1, 1) {
            lemma_trim_order(lt);
        } else if c == 0x2d || c == 0x2a || c == 0x2b {
            if n > 1 {
                lemma_char_len(lt, 1);
            }
        } else if c == 0x3a && (n == 1 || is_ws_at(lt, 1)) {
        } else if c == 0x60 || c == 0x3a || c == 0x7e {
            lemma_run_of_bounds(lt, 1, c);
            let fl = 1 + run_of(lt, 1, c);
            lemma_trim_order(lt.subrange(fl, n as int));
        } else {
            lemma_ordered_len(lt);
        }
    }
}

/// A line whose only newline is its last byte is read as a blank line exactly
/// where it holds nothing but white space.
pub proof fn lemma_blank_iff_white(t: Seq<u8>)
    requires
        forall|j: int| 0 <= j < t.len() - 1 ==> t[j] != 0x0a,
    ensures
        spec_new(t) matches Some(p) ==> (p.kind == Block::Atom(Atom::Blankline) <==> all_ws(t)),
{
    let k = ws_end(t, 0, true);
    lemma_ws_end_bounds(t, 0, true);
    lemma_ws_end_split(t, 0);
    if k < t.len() {
        if t[k] == 0x0a {
            assert(k == t.len() - 1);
            assert(is_ws_at(t, k));
            lemma_char_len(t, k);
            assert(ws_end(t, k + 1, false) == k + 1);
        } else {
            assert(!is_ws_at(t, k));
        }
        assert(t.subrange(k, t.len() as int)[0] == t[k]);
    }
}

pub proof fn lemma_find_close(t: Seq<u8>, i: int)
    requires
        0 <= i,
    ensures
        find_close(t, i) matches Some(j) ==> i <= j && j + 1 < t.len() && t[j] == 0x5d && t[j + 1]
            == 0x3a,
    decreases t.len() - i,
{
    if 0 <= i && i + 1 < t.len() && !(t[i] == 0x5d && t[i + 1] == 0x3a) {
        lemma_find_close(t, i + 1);
    }
}

pub proof fn lemma_class_run(t: Seq<u8>, i: int, n: OrderedListNumbering)
    requires
        0 <= i <= t.len(),
    ensures
        0 <= class_run(t, i, n) <= t.len() - i,
    decreases t.len() - i,
{
    if 0 <= i < t.len() && in_class(t[i], n) {
        lemma_class_run(t, i + 1, n);
    }
}

pub proof fn lemma_ordered_len(lt: Seq<u8>)
    requires
        lt.len() >= 1,
        lt.len() <= usize::MAX,
    ensures
        spec_ordered(lt) matches Some((_, _, len)) ==> 1 <= len <= lt.len(),
{
    let paren = lt[0] == 0x28;
    let i0: int = if paren { 2 } else { 1 };
    if !(paren && lt.len() < 2) {
        if let Some(num) = numbering_of(lt[i0 - 1]) {
            lemma_class_run(lt, i0, num);
        }
    }
}

impl BlockParser {
    /// Whether `line` continues the block; `None` where the line cannot be read.
    pub fn continues(&self, line: &[u8]) -> (r: Option<bool>)
        ensures
            r == spec_continues(*self, line@),
    {
        let (ts, _) = ws_run(line, 0, false);
        let empty = ts == line.len();
        match self.kind {
            Block::Atom(_) => Some(false),
            Block::Leaf(Leaf::Paragraph) | Block::Leaf(Leaf::Heading) | Block::Leaf(Leaf::Table) => Some(
                !empty,
            ),
            Block::Leaf(Leaf::LinkDefinition) => Some(
                line.len() > 0 && line[0] == 0x20 && !empty,
            ),
            Block::Container(Container::Blockquote) => {
                if ts < line.len() && line[ts] == 0x3e {
                    Some(true)
                } else {
                    match BlockParser::new(line) {
                        None => None,
                        Some(q) => Some(matches!(q.kind, Block::Leaf(Leaf::Paragraph))),
                    }
                }
            },
            Block::Container(Container::ListItem(_)) => {
                let (_, spaces) = ws_run(line, 0, false);
                if empty || spaces > self.indent {
                    Some(true)
                } else {
                    match BlockParser::new(line) {
                        None => None,
                        Some(q) => Some(matches!(q.kind, Block::Leaf(Leaf::Paragraph))),
                    }
                }
            },
            Block::Container(Container::Footnote) => {
                let (_, spaces) = ws_run(line, 0, false);
                Some(empty || spaces > self.indent)
            },
            Block::Container(Container::Div) | Block::Leaf(Leaf::CodeBlock) => match self.fence {
                None => None,
                Some((f, n)) => {
                    let m = count_run(line, 0, f);
                    let closes = (m >= n || m == line.len()) && (if m >= n {
                        n == line.len() || is_ws(line, n)
                    } else {
                        true
                    });
                    Some(!closes)
                },
            },
            Block::Container(Container::List(_)) => None,
        }
    }

    /// Reads the block that starts with the first of `lines`: the indentation of
    /// its first line in characters, its kind, the span of its marker within the
    /// first line, and the number of lines it uses (counting the closing fence
    /// of a fenced block, also where that is missing); `None` for no lines.
    pub fn parse(lines: &[&str]) -> (r: Option<(usize, Block, Span, usize)>)
        requires
            spec_block_parse(lines@) is Some,
            lines@.len() < usize::MAX,
        ensures
            r == spec_block_parse(lines@)->0,
            r is None <==> lines@.len() == 0,
            r matches Some((_, k, _, n)) ==> 1 <= n <= lines@.len() + if has_end_delimiter(k) {
                1int
            } else {
                0
            },
    {
        if lines.len() == 0 {
            return None;
        }
        let ghost ls = str_lines(lines@);
        let first = lines[0].as_bytes();
        let p = match BlockParser::new(first) {
            None => { return None; },
            Some(p) => p,
        };
        let mut j: usize = 1;
        let mut stop = false;
        let ghost total = cont_count(p, ls, 1);
        while j < lines.len() && !stop
            invariant
                1 <= j <= lines@.len(),
                lines@.len() < usize::MAX,
                ls == str_lines(lines@),
                total == cont_count(p, ls, 1),
                total matches Some(k) ==> cont_count(p, ls, j as int) == Some(k - (j - 1)),
                total is Some,
                stop ==> j < lines@.len() && ls[j as int] is Some && spec_continues(
                    p,
                    ls[j as int]->0,
                ) == Some(false),
            decreases lines@.len() - j, if stop { 0int } else { 1int },
        {
            let t = lines[j].as_bytes();
            assert(ls[j as int] == Some(t@));
            match p.continues(t) {
                None => { return None; },
                Some(false) => { stop = true; },
                Some(true) => { j = j + 1; },
            }
        }
        proof {
            lemma_cont_count_bounds(p, ls, 1);
        }
        let count = j + if matches!(p.kind, Block::Leaf(Leaf::CodeBlock) | Block::Container(Container::Div)) { 1 } else { 0 };
        Some((p.indent, p.kind, p.span, count))
    }
}


// ---------------------------------------------------------------------------
// The lines of the source.

/// End of the line that starts at byte `i`: just after its newline, or the end
/// of the source.
pub open spec fn nl_end(s: Seq<u8>, i: int) -> int
    decreases s.len() - i,
{
    if !(0 <= i < s.len()) {
        s.len() as int
    } else if s[i] == 0x0a {
        i + 1
    } else {
        nl_end(s, i + 1)
    }
}

/// The lines from byte `i` on, each with its newline.
pub open spec fn lines_from(s: Seq<u8>, i: int) -> Seq<Span>
    decreases s.len() - i,
{
    if 0 <= i < s.len() {
        proof {
            lemma_nl_end(s, i);
        }
        seq![sp(i, nl_end(s, i))] + lines_from(s, nl_end(s, i))
    } else {
        seq![]
    }
}

/// The lines of the source, each with its newline.
pub open spec fn spec_lines(s: Seq<u8>) -> Seq<Span> {
    lines_from(s, 0)
}

pub proof fn lemma_nl_end(s: Seq<u8>, i: int)
    requires
        0 <= i < s.len(),
    ensures
        i < nl_end(s, i) <= s.len(),
        forall|j: int| i <= j < nl_end(s, i) - 1 ==> s[j] != 0x0a,
        nl_end(s, i) < s.len() ==> s[nl_end(s, i) - 1] == 0x0a,
        s[nl_end(s, i) - 1] != 0x0a ==> nl_end(s, i) == s.len(),
    decreases s.len() - i,
{
    if s[i] != 0x0a {
        if i + 1 < s.len() {
            lemma_nl_end(s, i + 1);
        } else {
            assert(nl_end(s, i + 1) == s.len());
        }
    }
}

/// `ls` are the lines of `s` from byte `i` on: consecutive, not empty, covering
/// the rest of `s`, each ending just after its only newline (the last one may
/// lack it).
pub open spec fn tiles(s: Seq<u8>, ls: Seq<Span>, i: int) -> bool {
    &&& (ls.len() == 0 <==> i >= s.len())
    &&& ls.len() <= s.len() - i
    &&& ls.len() > 0 ==> ls[0].start == i && ls.last().end == s.len()
    &&& forall|k: int| 0 <= k < ls.len() - 1 ==> #[trigger] ls[k].end == ls[k + 1].start
    &&& forall|k: int| 0 <= k < ls.len() ==> #[trigger] ls[k].start < ls[k].end && ls[k].end <= s.len()
    &&& forall|k: int, j: int|
        #![trigger ls[k], s[j]]
        0 <= k < ls.len() && ls[k].start <= j < ls[k].end - 1 ==> s[j] != 0x0a
    &&& forall|k: int| 0 <= k < ls.len() - 1 ==> s[#[trigger] ls[k].end - 1] == 0x0a
}

pub proof fn lemma_lines_from(s: Seq<u8>, i: int)
    requires
        0 <= i <= s.len(),
        s.len() <= usize::MAX,
    ensures
        tiles(s, lines_from(s, i), i),
    decreases s.len() - i,
{
    if i < s.len() {
        lemma_nl_end(s, i);
        let e = nl_end(s, i);
        lemma_lines_from(s, e);
        let rest = lines_from(s, e);
        let ls = lines_from(s, i);
        assert(ls == seq![sp(i, e)] + rest);
        assert(ls[0] == sp(i, e));
        assert forall|k: int| 1 <= k < ls.len() implies #[trigger] ls[k] == rest[k - 1] by {}
        assert forall|k: int| 0 <= k < ls.len() - 1 implies #[trigger] ls[k].end == ls[k + 1].start by {
            if k > 0 {
                assert(ls[k] == rest[k - 1]);
                assert(ls[k + 1] == rest[k]);
            }
        }
        assert forall|k: int, j: int|
            #![trigger ls[k], s[j]]
            0 <= k < ls.len() && ls[k].start <= j < ls[k].end - 1 implies s[j] != 0x0a by {
            if k > 0 {
                assert(ls[k] == rest[k - 1]);
            }
        }
        assert forall|k: int| 0 <= k < ls.len() - 1 implies s[#[trigger] ls[k].end - 1] == 0x0a by {
            if k > 0 {
                assert(ls[k] == rest[k - 1]);
            }
        }
        if rest.len() > 0 {
            assert(ls.last() == rest.last());
        }
    }
}

/// The lines of a source tile it (see `tiles`).
pub proof fn lemma_lines_structure(s: Seq<u8>)
    requires
        s.len() <= usize::MAX,
    ensures
        tiles(s, spec_lines(s), 0),
        wf_spans(s, spec_lines(s)),
{
    lemma_lines_from(s, 0);
}

// ---------------------------------------------------------------------------
// Cutting spans out of the source.

/// Whether span `x` can be cut out of the source: in bounds and on character
/// boundaries, so that slicing the text there does not panic.
pub open spec fn aligned(s: Seq<u8>, x: Span) -> bool {
    x.start <= x.end <= s.len() && boundary(s, x.start as int) && boundary(s, x.end as int)
}

pub open spec fn cut(s: Seq<u8>, x: Span) -> Option<Seq<u8>> {
    if aligned(s, x) {
        Some(s.subrange(x.start as int, x.end as int))
    } else {
        None
    }
}

pub open spec fn cut_lines(s: Seq<u8>, ls: Seq<Span>) -> Seq<Option<Seq<u8>>> {
    ls.map_values(|x: Span| cut(s, x))
}

/// Spans in bounds and not backwards.
pub open spec fn wf_spans(s: Seq<u8>, ls: Seq<Span>) -> bool {
    forall|i: int| 0 <= i < ls.len() ==> span_in(s, #[trigger] ls[i])
}

/// A span in bounds and not backwards.
pub open spec fn span_in(s: Seq<u8>, x: Span) -> bool {
    x.start <= x.end <= s.len()
}

/// Sum of the lengths of the spans.
pub open spec fn total_len(ls: Seq<Span>) -> int
    decreases ls.len(),
{
    if ls.len() == 0 {
        0
    } else {
        span_len(ls[0]) + total_len(ls.drop_first())
    }
}

/// `x` without its leading white space (`Span::trim_start`).
pub open spec fn trim_start_of(s: Seq<u8>, x: Span) -> Span {
    sp(x.start + trim_start_pos(s.subrange(x.start as int, x.end as int)), x.end as int)
}

/// `x` without its trailing white space (`Span::trim_end`).
pub open spec fn trim_end_of(s: Seq<u8>, x: Span) -> Span {
    sp(x.start as int, x.start + trim_end_pos(s.subrange(x.start as int, x.end as int)))
}

/// Every span without its leading white space.
pub open spec fn trim_starts(s: Seq<u8>, ls: Seq<Span>) -> Seq<Span> {
    Seq::new(ls.len(), |i: int| trim_start_of(s, ls[i]))
}

/// The inline lines of a leaf block from its lines `ls`: a code block loses the
/// white space at the start of its first line, other leaves that of every line
/// and the white space at the end of the last; an empty first line is dropped.
/// `None` where a line cannot be cut out.
pub open spec fn spec_leaf_lines(s: Seq<u8>, lf: Leaf, ls: Seq<Span>) -> Option<Seq<Span>> {
    let n = ls.len();
    let trimmed = if lf == Leaf::CodeBlock {
        if aligned(s, ls[0]) {
            Some(ls.update(0, trim_start_of(s, ls[0])))
        } else {
            None
        }
    } else if forall|i: int| 0 <= i < n ==> aligned(s, #[trigger] ls[i]) {
        let a = trim_starts(s, ls);
        if aligned(s, a[n - 1]) {
            Some(a.update(n - 1, trim_end_of(s, a[n - 1])))
        } else {
            None
        }
    } else {
        None
    };
    match trimmed {
        None => None,
        Some(a) => Some(
            if a[0].start == a[0].end {
                a.drop_first()
            } else {
                a
            },
        ),
    }
}

/// A line after the first of a container, without its indentation and the
/// `skip_chars` characters of the container's prefix (both counted in
/// characters and cut as bytes), but never past its newline. In a block quote
/// (`quote`), a lazy line, which does not start with `>`, stays as it is.
pub open spec fn strip_line(s: Seq<u8>, x: Span, skip_chars: int, quote: bool) -> Span {
    let t = s.subrange(x.start as int, x.end as int);
    if quote && !quoted(t) {
        x
    } else {
    let nl: int = if t.len() > 0 && t[t.len() - 1] == 0x0a { 1 } else { 0 };
    let want = ws_count(t, 0, false) + skip_chars;
    let skip = if want < t.len() - nl { want } else { t.len() - nl };
    sp(x.start + skip, x.end as int)
    }
}

/// The lines of a container with every line after the first stripped; `None`
/// where one of them cannot be cut out.
pub open spec fn spec_strip(s: Seq<u8>, ls: Seq<Span>, skip_chars: int, quote: bool) -> Option<Seq<Span>> {
    if forall|i: int| 1 <= i < ls.len() ==> aligned(s, #[trigger] ls[i]) {
        Some(
            Seq::new(
                ls.len(),
                |i: int|
                    if i == 0 {
                        ls[0]
                    } else {
                        strip_line(s, ls[i], skip_chars, quote)
                    },
            ),
        )
    } else {
        None
    }
}

// ---------------------------------------------------------------------------
// The parser's state.

/// A list that is open: its type, and the depth in the tree at which it was
/// entered.
#[derive(Clone, Copy, Debug, PartialEq, Eq)]
pub struct OpenList {
    pub ty: ListType,
    pub depth: u16,
}

/// What the parser has built so far, and which lists are open, innermost last.
pub struct ParseState {
    pub tree: BuilderView,
    pub lists: Seq<OpenList>,
}

pub open spec fn ps_enter(st: ParseState, n: Node, x: Span) -> ParseState {
    ParseState { tree: b_enter(st.tree, n, x), lists: st.lists }
}

pub open spec fn ps_exit(st: ParseState) -> ParseState {
    ParseState { tree: b_exit(st.tree), lists: st.lists }
}

pub open spec fn ps_atom(st: ParseState, a: Atom, x: Span) -> ParseState {
    ParseState { tree: b_atom(st.tree, a, x), lists: st.lists }
}

/// An inline event for each of the spans, in order.
pub open spec fn ps_inlines(st: ParseState, xs: Seq<Span>) -> ParseState
    decreases xs.len(),
{
    if xs.len() == 0 {
        st
    } else {
        ps_inlines(ParseState { tree: b_inline(st.tree, xs[0]), lists: st.lists }, xs.drop_first())
    }
}

/// A list of type `ty` entered with marker `x` and recorded as open at the
/// depth it was entered at; `None` where that depth no longer fits in a `u16`.
pub open spec fn enter_list(st: ParseState, ty: ListType, x: Span) -> Option<ParseState> {
    let st1 = ps_enter(st, Node::Container(Container::List(ty)), x);
    if st1.tree.open.len() > u16::MAX {
        None
    } else {
        Some(
            ParseState {
                tree: st1.tree,
                lists: st1.lists.push(OpenList { ty, depth: st1.tree.open.len() as u16 }),
            },
        )
    }
}

/// Before a list item of type `ty`: the innermost open list continues where it
/// is the innermost open block and has the item's type. Where it is the
/// innermost open block but has another type, it is exited and a new list is
/// entered; where there is no open list, or it lies deeper than the innermost
/// open block, a new list is entered. `None` where the depth of the new list no
/// longer fits in a `u16`.
pub open spec fn spec_open_list(st: ParseState, c: Container, x: Span) -> Option<ParseState> {
    match c {
        Container::ListItem(ty) => if st.lists.len() == 0 || st.lists.last().depth
            < st.tree.open.len() {
            enter_list(st, ty, x)
        } else if st.lists.last().depth == st.tree.open.len() && st.lists.last().ty != ty {
            enter_list(ParseState { tree: b_exit(st.tree), lists: st.lists.drop_last() }, ty, x)
        } else {
            Some(st)
        },
        _ => Some(st),
    }
}

/// After the children of a container: the innermost open list is exited if it
/// is the innermost open block. `None` where it lies deeper than the current
/// depth, which a well-formed state never allows.
pub open spec fn spec_close_list(st: ParseState) -> Option<ParseState> {
    if st.lists.len() == 0 {
        Some(st)
    } else if st.lists.last().depth > st.tree.open.len() {
        None
    } else if st.lists.last().depth == st.tree.open.len() {
        Some(ParseState { tree: b_exit(st.tree), lists: st.lists.drop_last() })
    } else {
        Some(st)
    }
}

// ---------------------------------------------------------------------------
// Parsing blocks.

/// The span of a block's marker in the source, from its first line `ls[0]`.
pub open spec fn block_span(ls: Seq<Span>, p: BlockParser) -> Span {
    sp(p.span.start + ls[0].start, p.span.end + ls[0].start)
}

/// The lines of a block that uses `lc` of the lines `ls`: its first line starts
/// after the marker (and after the `]:` of a reference), and the closing fence of
/// a fenced block is left out.
pub open spec fn block_lines(ls: Seq<Span>, p: BlockParser, lc: int) -> Seq<Span> {
    let n = ls.len() as int;
    let truncated = lc > n;
    let l = if truncated { n } else { lc };
    let end = block_span(ls, p).end;
    let first = if p.kind == Block::Leaf(Leaf::LinkDefinition) || p.kind == Block::Container(
        Container::Footnote,
    ) {
        sp(end + 2, ls[0].end as int)
    } else {
        sp(end as int, ls[0].end as int)
    };
    let ls2 = ls.subrange(0, l).update(0, first);
    if !truncated && has_end_delimiter(p.kind) {
        ls2.subrange(0, l - 1)
    } else {
        ls2
    }
}

pub proof fn lemma_total_nonneg(ls: Seq<Span>)
    ensures
        total_len(ls) >= 0,
    decreases ls.len(),
{
    if ls.len() > 0 {
        lemma_total_nonneg(ls.drop_first());
    }
}

pub proof fn lemma_total_split(ls: Seq<Span>, k: int)
    requires
        0 <= k <= ls.len(),
    ensures
        total_len(ls) == total_len(ls.subrange(0, k)) + total_len(ls.subrange(k, ls.len() as int)),
        total_len(ls.subrange(0, k)) <= total_len(ls),
        total_len(ls.subrange(k, ls.len() as int)) <= total_len(ls),
    decreases k,
{
    lemma_total_nonneg(ls.subrange(0, k));
    lemma_total_nonneg(ls.subrange(k, ls.len() as int));
    if k == 0 {
        assert(ls.subrange(0, ls.len() as int) =~= ls);
        assert(ls.subrange(0, 0).len() == 0);
    } else {
        lemma_total_split(ls.drop_first(), k - 1);
        assert(ls.subrange(0, k).drop_first() =~= ls.drop_first().subrange(0, k - 1));
        assert(ls.subrange(k, ls.len() as int) =~= ls.drop_first().subrange(
            k - 1,
            ls.drop_first().len() as int,
        ));
        lemma_total_nonneg(ls.drop_first().subrange(0, k - 1));
        lemma_total_nonneg(ls.drop_first().subrange(k - 1, ls.drop_first().len() as int));
    }
}

pub proof fn lemma_total_pointwise(a: Seq<Span>, b: Seq<Span>)
    requires
        a.len() == b.len(),
        forall|i: int| 0 <= i < a.len() ==> span_len(#[trigger] a[i]) <= span_len(b[i]),
    ensures
        total_len(a) <= total_len(b),
    decreases a.len(),
{
    if a.len() > 0 {
        assert(span_len(a[0]) <= span_len(b[0]));
        lemma_total_pointwise(a.drop_first(), b.drop_first());
    }
}

/// A block uses at least one line, and at least two where it is fenced; at
/// most one more than there are.
pub proof fn lemma_read_count(ls: Seq<Option<Seq<u8>>>)
    requires
        ls.len() >= 1,
    ensures
        spec_read(ls) matches Some((p, lc)) ==> 1 <= lc <= ls.len() + 1 && (has_end_delimiter(
            p.kind,
        ) ==> lc >= 2),
{
    if let Some(t) = ls[0] {
        if let Some(p) = spec_new(t) {
            lemma_cont_count_bounds(p, ls, 1);
        }
    }
}

pub proof fn lemma_block_lines(ls: Seq<Span>, p: BlockParser, lc: int)
    requires
        ls.len() >= 1,
        lc >= 1,
        has_end_delimiter(p.kind) ==> lc >= 2,
    ensures
        1 <= block_lines(ls, p, lc).len() <= ls.len(),
        block_lines(ls, p, lc).len() <= lc,
        forall|i: int| 1 <= i < block_lines(ls, p, lc).len() ==> #[trigger] block_lines(ls, p, lc)[i] == ls[i],
{
}

/// The lines that a container passes to its children are shorter in all than
/// the lines it was given, so parsing terminates.
pub proof fn lemma_block_shrinks(
    s: Seq<u8>,
    ls: Seq<Span>,
    p: BlockParser,
    lc: int,
    skip_chars: int,
    quote: bool,
    ls4: Seq<Span>,
    inner: int,
)
    requires
        ls.len() >= 1,
        s.len() <= usize::MAX,
        wf_spans(s, ls),
        aligned(s, ls[0]),
        spec_new(s.subrange(ls[0].start as int, ls[0].end as int)) == Some(p),
        p.kind is Container,
        lc >= 1,
        skip_chars >= 0,
        spec_strip(s, block_lines(ls, p, lc), skip_chars, quote) == Some(ls4),
        0 <= inner <= ls4.len(),
    ensures
        0 <= total_len(ls4.subrange(0, inner)) < total_len(ls),
{
    lemma_total_nonneg(ls4.subrange(0, inner));
    let t0 = s.subrange(ls[0].start as int, ls[0].end as int);
    lemma_new_facts(t0);
    let n = ls.len() as int;
    let truncated = lc > n;
    let l = if truncated { n } else { lc };
    let end = block_span(ls, p).end;
    let first = if p.kind == Block::Leaf(Leaf::LinkDefinition) || p.kind == Block::Container(
        Container::Footnote,
    ) {
        sp(end + 2, ls[0].end as int)
    } else {
        sp(end as int, ls[0].end as int)
    };
    assert(span_len(first) < span_len(ls[0]));
    let pre = ls.subrange(0, l);
    let ls2 = pre.update(0, first);
    lemma_total_split(ls, l);
    assert(ls2.drop_first() =~= pre.drop_first());
    assert(total_len(ls2) < total_len(pre));
    let ls3 = block_lines(ls, p, lc);
    if !truncated && has_end_delimiter(p.kind) {
        lemma_total_split(ls2, l - 1);
    }
    assert(total_len(ls3) <= total_len(ls2));
    assert forall|i: int| 0 <= i < ls4.len() implies span_len(#[trigger] ls4[i]) <= span_len(ls3[i]) by {
        if i > 0 {
            assert(ls3[i] == ls[i]);
            let x = ls3[i];
            let t = s.subrange(x.start as int, x.end as int);
            lemma_ws_end_bounds(t, 0, false);
        }
    }
    lemma_total_pointwise(ls4, ls3);
    lemma_total_split(ls4, inner);
}

/// Parses the block that starts with the first of the lines `ls`, and all of
/// its children, from state `st`: the state after it and the number of lines
/// it uses (which may exceed `ls.len()` for an unclosed fenced block). `None`
/// where the lines cannot be parsed.
pub open spec fn spec_block(s: Seq<u8>, ls: Seq<Span>, st: ParseState) -> Option<(ParseState, int)>
    decreases total_len(ls), 0int, 0int,
{
    if ls.len() == 0 || s.len() > usize::MAX || !wf_spans(s, ls) {
        Some((st, 0))
    } else {
        match spec_read(cut_lines(s, ls)) {
            None => None,
            Some((p, lc)) => {
                let span = block_span(ls, p);
                let ls3 = block_lines(ls, p, lc);
                match p.kind {
                    Block::Atom(a) => Some((ps_atom(st, a, span), lc)),
                    Block::Leaf(lf) => match spec_leaf_lines(s, lf, ls3) {
                        None => None,
                        Some(inl) => Some(
                            (ps_exit(ps_inlines(ps_enter(st, Node::Leaf(lf), span), inl)), lc),
                        ),
                    },
                    Block::Container(c) => {
                        let skip_chars: int = match c {
                            Container::Blockquote => 2,
                            Container::Div => 0,
                            _ => p.indent as int,
                        };
                        let inner: int = if c == Container::Div {
                            ls3.len() - 1
                        } else {
                            ls3.len() as int
                        };
                        match spec_strip(s, ls3, skip_chars, c == Container::Blockquote) {
                            None => None,
                            Some(ls4) => {
                                proof {
                                    lemma_read_count(cut_lines(s, ls));
                                    lemma_block_lines(ls, p, lc);
                                    lemma_block_shrinks(s, ls, p, lc, skip_chars, c == Container::Blockquote, ls4, inner);
                                }
                                match spec_container(s, c, span, ls4.subrange(0, inner), st) {
                                    None => None,
                                    Some(st4) => Some((st4, lc)),
                                }
                            },
                        }
                    },
                }
            },
        }
    }
}

/// A container with marker `x` whose children are the blocks of the lines
/// `ls`: the list it belongs to is entered if need be, then the container, its
/// children, and the list exited if it ends here, then the container exited.
pub open spec fn spec_container(s: Seq<u8>, c: Container, x: Span, ls: Seq<Span>, st: ParseState) -> Option<ParseState>
    decreases total_len(ls), 2int, 0int,
{
    match spec_open_list(st, c, x) {
        None => None,
        Some(st1) => {
            proof {
                lemma_total_nonneg(ls);
            }
            match spec_blocks(s, ls, ps_enter(st1, Node::Container(c), x)) {
                None => None,
                Some(st3) => match spec_close_list(st3) {
                    None => None,
                    Some(st4) => Some(ps_exit(st4)),
                },
            }
        },
    }
}

/// Parses the blocks of the lines `ls` one after the other, from state `st`.
pub open spec fn spec_blocks(s: Seq<u8>, ls: Seq<Span>, st: ParseState) -> Option<ParseState>
    decreases total_len(ls), 1int, ls.len(),
{
    if ls.len() == 0 {
        Some(st)
    } else {
        match spec_block(s, ls, st) {
            None => None,
            Some((st2, c)) => if c <= 0 || c >= ls.len() {
                Some(st2)
            } else {
                proof {
                    lemma_total_split(ls, c);
                }
                spec_blocks(s, ls.subrange(c, ls.len() as int), st2)
            },
        }
    }
}


pub open spec fn init_state() -> ParseState {
    ParseState {
        tree: BuilderView { events: Seq::<Event>::empty(), open: Seq::<(Node, Span)>::empty() },
        lists: Seq::<OpenList>::empty(),
    }
}

/// `n` exits.
pub open spec fn exit_n(b: BuilderView, n: nat) -> BuilderView
    decreases n,
{
    if n == 0 {
        b
    } else {
        exit_n(b_exit(b), (n - 1) as nat)
    }
}

/// The events of the document `s`: its blocks parsed one after the other, then
/// every list that is still open exited. `None` where the document cannot be
/// parsed.
pub open spec fn spec_parse(s: Seq<u8>) -> Option<Seq<Event>> {
    match spec_blocks(s, spec_lines(s), init_state()) {
        None => None,
        Some(st) => Some(exit_n(st.tree, st.lists.len()).events),
    }
}

// ---------------------------------------------------------------------------
// Executable parsing.

/// The end of the line that starts at byte `i`.
fn line_end(s: &[u8], i: usize) -> (r: usize)
    requires
        i < s@.len(),
    ensures
        r == nl_end(s@, i as int),
{
    let mut j = i;
    while j < s.len() && s[j] != 0x0a
        invariant
            i <= j <= s@.len(),
            nl_end(s@, i as int) == nl_end(s@, j as int),
        decreases s@.len() - j,
    {
        j = j + 1;
    }
    if j < s.len() {
        j + 1
    } else {
        j
    }
}

fn lines_of(s: &[u8]) -> (r: Vec<Span>)
    ensures
        r@ == spec_lines(s@),
{
    let mut r: Vec<Span> = Vec::new();
    let mut i: usize = 0;
    while i < s.len()
        invariant
            i <= s@.len(),
            spec_lines(s@) == r@ + lines_from(s@, i as int),
        decreases s@.len() - i,
    {
        let e = line_end(s, i);
        proof {
            lemma_nl_end(s@, i as int);
        }
        r.push(Span::new(i, e));
        assert(spec_lines(s@) == r@ + lines_from(s@, e as int));
        i = e;
    }
    assert(r@ + lines_from(s@, i as int) == r@);
    r
}

/// The span `x` of the source, where it can be cut out.
fn cut_span(s: &[u8], x: Span) -> (r: Option<&[u8]>)
    requires
        x.start <= x.end <= s@.len(),
    ensures
        r matches Some(t) ==> Some(t@) == cut(s@, x),
        r is None ==> cut(s@, x) is None,
{
    if is_boundary(s, x.start) && is_boundary(s, x.end) {
        Some(slice_subrange(s, x.start, x.end))
    } else {
        None
    }
}

/// Reads the block that starts with `lines[lo]`, among `lines[lo..hi]`.
fn read_block(s: &[u8], lines: &Vec<Span>, lo: usize, hi: usize) -> (r: Option<(BlockParser, usize)>)
    requires
        lo < hi <= lines@.len(),
        lines@.len() < usize::MAX,
        wf_spans(s@, lines@),
    ensures
        match spec_read(cut_lines(s@, lines@.subrange(lo as int, hi as int))) {
            None => r is None,
            Some((p, c)) => r == Some((p, c as usize)),
        },
{
    let ghost ls = cut_lines(s@, lines@.subrange(lo as int, hi as int));
    let x0 = lines[lo];
    assert(ls[0] == cut(s@, x0));
    let t0 = match cut_span(s, x0) {
        None => { return None; },
        Some(t) => t,
    };
    assert(ls[0] == Some(t0@));
    let p = match BlockParser::new(t0) {
        None => { return None; },
        Some(p) => p,
    };
    let mut j: usize = lo + 1;
    let mut stop = false;
    while j < hi && !stop
        invariant
            lo < j <= hi <= lines@.len(),
            lines@.len() < usize::MAX,
            wf_spans(s@, lines@),
            ls == cut_lines(s@, lines@.subrange(lo as int, hi as int)),
            ls[0] is Some && spec_new(ls[0]->0) == Some(p),
            cont_count(p, ls, 1) matches Some(k) ==> cont_count(p, ls, j - lo) == Some(k - (j - lo - 1)),
            cont_count(p, ls, 1) is None ==> cont_count(p, ls, j - lo) is None,
            stop ==> j < hi && ls[j - lo] is Some && spec_continues(p, ls[j - lo]->0) == Some(false),
        decreases hi - j, if stop { 0int } else { 1int },
    {
        let x = lines[j];
        assert(ls[j - lo] == cut(s@, x));
        assert(ls.len() == hi - lo);
        let t = match cut_span(s, x) {
            None => {
                assert(cont_count(p, ls, j - lo) is None);
                return None;
            },
            Some(t) => t,
        };
        assert(ls[j - lo] == Some(t@));
        match p.continues(t) {
            None => {
                assert(cont_count(p, ls, j - lo) is None);
                return None;
            },
            Some(false) => { stop = true; },
            Some(true) => { j = j + 1; },
        }
    }
    proof {
        lemma_cont_count_bounds(p, ls, 1);
    }
    let count = (j - lo) + if matches!(p.kind, Block::Leaf(Leaf::CodeBlock) | Block::Container(Container::Div)) { 1 } else { 0 };
    Some((p, count))
}

/// `x` without its leading white space; `x` must be cut out of the source.
fn trim_start_span(s: &[u8], x: Span) -> (r: Span)
    requires
        aligned(s@, x),
    ensures
        r == trim_start_of(s@, x),
        r.start <= r.end == x.end,
        x.start <= r.start,
{
    let t = slice_subrange(s, x.start, x.end);
    let (a, _) = ws_run(t, 0, false);
    Span::new(x.start + a, x.end)
}

/// `x` without its trailing white space; `x` must be cut out of the source.
fn trim_end_span(s: &[u8], x: Span) -> (r: Span)
    requires
        aligned(s@, x),
    ensures
        r == trim_end_of(s@, x),
        r.start == x.start <= r.end <= x.end,
{
    let t = slice_subrange(s, x.start, x.end);
    let b = trim_end(t);
    Span::new(x.start, x.start + b)
}

fn is_aligned(s: &[u8], x: Span) -> (r: bool)
    requires
        x.start <= x.end <= s@.len(),
    ensures
        r == aligned(s@, x),
{
    is_boundary(s, x.start) && is_boundary(s, x.end)
}

/// The inline lines of a leaf block.
fn leaf_lines(s: &[u8], lf: Leaf, ls: &Vec<Span>) -> (r: Option<Vec<Span>>)
    requires
        ls@.len() >= 1,
        wf_spans(s@, ls@),
    ensures
        match spec_leaf_lines(s@, lf, ls@) {
            None => r is None,
            Some(v) => r matches Some(w) && w@ == v,
        },
{
    let n = ls.len();
    let mut a: Vec<Span> = Vec::new();
    if matches!(lf, Leaf::CodeBlock) {
        let x = ls[0];
        if !is_aligned(s, x) {
            return None;
        }
        a.push(trim_start_span(s, x));
        let mut i: usize = 1;
        while i < n
            invariant
                1 <= i <= n == ls@.len(),
                aligned(s@, ls@[0]),
                a@ == ls@.subrange(0, i as int).update(0, trim_start_of(s@, ls@[0])),
            decreases n - i,
        {
            a.push(ls[i]);
            i = i + 1;
            assert(a@ =~= ls@.subrange(0, i as int).update(0, trim_start_of(s@, ls@[0])));
        }
        assert(a@ =~= ls@.update(0, trim_start_of(s@, ls@[0])));
    } else {
        let mut i: usize = 0;
        while i < n
            invariant
                i <= n == ls@.len(),
                wf_spans(s@, ls@),
                lf != Leaf::CodeBlock,
                forall|k: int| 0 <= k < i ==> aligned(s@, #[trigger] ls@[k]),
                a@ == trim_starts(s@, ls@.subrange(0, i as int)),
            decreases n - i,
        {
            let x = ls[i];
            if !is_aligned(s, x) {
                assert(!aligned(s@, ls@[i as int]));
                return None;
            }
            a.push(trim_start_span(s, x));
            i = i + 1;
            assert(a@ =~= trim_starts(s@, ls@.subrange(0, i as int)));
        }
        assert(ls@.subrange(0, n as int) =~= ls@);
        let last = a[n - 1];
        assert(wf_spans(s@, ls@));
        assert(last.start <= last.end <= s@.len()) by {
            assert(ls@[n - 1].start <= ls@[n - 1].end);
            lemma_ws_end_bounds(s@.subrange(ls@[n - 1].start as int, ls@[n - 1].end as int), 0, false);
        }
        if !is_aligned(s, last) {
            return None;
        }
        a.set(n - 1, trim_end_span(s, last));
    }
    if a[0].start == a[0].end {
        let mut b: Vec<Span> = Vec::new();
        let mut i: usize = 1;
        while i < a.len()
            invariant
                1 <= i <= a@.len(),
                b@ == a@.subrange(1, i as int),
            decreases a@.len() - i,
        {
            b.push(a[i]);
            i = i + 1;
            assert(b@ =~= a@.subrange(1, i as int));
        }
        assert(b@ =~= a@.drop_first());
        Some(b)
    } else {
        Some(a)
    }
}


/// The lines of a container with every line after the first stripped.
fn strip_lines(s: &[u8], ls: &Vec<Span>, skip_chars: usize, quote: bool) -> (r: Option<Vec<Span>>)
    requires
        ls@.len() >= 1,
        wf_spans(s@, ls@),
    ensures
        match spec_strip(s@, ls@, skip_chars as int, quote) {
            None => r is None,
            Some(v) => r matches Some(w) && w@ == v,
        },
{
    let n = ls.len();
    let mut out: Vec<Span> = Vec::new();
    out.push(ls[0]);
    let mut i: usize = 1;
    while i < n
        invariant
            1 <= i <= n == ls@.len(),
            wf_spans(s@, ls@),
            forall|k: int| 1 <= k < i ==> aligned(s@, #[trigger] ls@[k]),
            out@.len() == i,
            out@[0] == ls@[0],
            forall|k: int| 1 <= k < i ==> #[trigger] out@[k] == strip_line(s@, ls@[k], skip_chars as int, quote),
        decreases n - i,
    {
        let x = ls[i];
        let t = match cut_span(s, x) {
            None => {
                assert(!aligned(s@, ls@[i as int]));
                return None;
            },
            Some(t) => t,
        };
        let (ts, ws) = ws_run(t, 0, false);
        if quote && !(ts < t.len() && t[ts] == 0x3e) {
            out.push(x);
        } else {
            let nl: usize = if t.len() > 0 && t[t.len() - 1] == 0x0a { 1 } else { 0 };
            let cap = t.len() - nl;
            let skip = if ws >= cap || skip_chars >= cap - ws { cap } else { ws + skip_chars };
            out.push(Span::new(x.start + skip, x.end));
        }
        i = i + 1;
    }
    proof {
        let v = spec_strip(s@, ls@, skip_chars as int, quote)->0;
        assert(out@ =~= v);
    }
    Some(out)
}

/// The lines of a block that uses `lc` of the lines `lines[lo..hi]`.
fn block_lines_of(s: &[u8], lines: &Vec<Span>, lo: usize, hi: usize, p: BlockParser, lc: usize) -> (r: (Span, Vec<Span>))
    requires
        lo < hi <= lines@.len(),
        wf_spans(s@, lines@),
        s@.len() <= usize::MAX,
        aligned(s@, lines@[lo as int]),
        spec_new(s@.subrange(lines@[lo as int].start as int, lines@[lo as int].end as int)) == Some(p),
        lc >= 1,
        has_end_delimiter(p.kind) ==> lc >= 2,
    ensures
        r.0 == block_span(lines@.subrange(lo as int, hi as int), p),
        r.1@ == block_lines(lines@.subrange(lo as int, hi as int), p, lc as int),
        wf_spans(s@, r.1@),
{
    let ghost ls = lines@.subrange(lo as int, hi as int);
    let x0 = lines[lo];
    proof {
        lemma_new_facts(s@.subrange(x0.start as int, x0.end as int));
        lemma_block_lines(ls, p, lc as int);
    }
    let span = p.span.translate(x0.start);
    let mut first = x0.with_start(span.end);
    if matches!(p.kind, Block::Leaf(Leaf::LinkDefinition) | Block::Container(Container::Footnote)) {
        first = first.skip(2);
    }
    let n = hi - lo;
    let truncated = lc > n;
    let l = if truncated { n } else { lc };
    let m = if !truncated && matches!(p.kind, Block::Leaf(Leaf::CodeBlock) | Block::Container(Container::Div)) {
        l - 1
    } else {
        l
    };
    let mut out: Vec<Span> = Vec::new();
    out.push(first);
    let mut i: usize = 1;
    while i < m
        invariant
            1 <= i <= m <= n == hi - lo,
            lo < hi <= lines@.len(),
            out@.len() == i,
            out@[0] == first,
            forall|k: int| 1 <= k < i ==> #[trigger] out@[k] == lines@[lo + k],
        decreases m - i,
    {
        out.push(lines[lo + i]);
        i = i + 1;
    }
    proof {
        let v = block_lines(ls, p, lc as int);
        assert(out@ =~= v);
        assert forall|k: int| 0 <= k < out@.len() implies #[trigger] out@[k].start <= out@[k].end
            && out@[k].end <= s@.len() by {
            if k > 0 {
                assert(out@[k] == lines@[lo + k]);
            }
        }
        assert(wf_spans(s@, out@));
    }
    (span, out)
}

// ---------------------------------------------------------------------------
// The tree parser.

/// Parser for block-level tree structure of entire document.
pub struct TreeParser<'s> {
    src: &'s [u8],
    tree: TreeBuilder,
    lists_open: Vec<OpenList>,
}

impl<'s> TreeParser<'s> {
    /// The source text, as bytes.
    pub closed spec fn source(&self) -> Seq<u8> {
        self.src@
    }

    /// What the parser has built so far.
    pub closed spec fn state(&self) -> ParseState {
        ParseState { tree: self.tree@, lists: self.lists_open@ }
    }

    #[must_use]
    pub fn new(src: &'s str) -> (r: Self)
        ensures
            r.source() == src.spec_bytes(),
            r.state() == init_state(),
            valid_utf8(r.source()),
    {
        proof {
            encode_utf8_valid_utf8(src@);
        }
        let r = TreeParser { src: src.as_bytes(), tree: TreeBuilder::new(), lists_open: Vec::new() };
        assert(r.state().lists =~= init_state().lists);
        assert(r.state().tree.events =~= init_state().tree.events);
        assert(r.state().tree.open =~= init_state().tree.open);
        r
    }

    /// Parses the block that starts with `lines[lo]`, among `lines[lo..hi]`, and
    /// all of its children; returns the number of lines the block uses, and 0,
    /// changing nothing, where there are no lines.
    fn parse_block(&mut self, lines: &Vec<Span>, lo: usize, hi: usize) -> (r: Option<usize>)
        requires
            lo <= hi <= lines@.len(),
            lines@.len() < usize::MAX,
            wf_spans(old(self).source(), lines@),
        ensures
            final(self).source() == old(self).source(),
            match spec_block(old(self).source(), lines@.subrange(lo as int, hi as int), old(self).state()) {
                None => r is None,
                Some((st, c)) => r == Some(c as usize) && final(self).state() == st && 0 <= c <= hi - lo + 1
                    && (c == 0 <==> lo == hi),
            },
            lo == hi ==> r == Some(0usize) && final(self).state() == old(self).state(),
        decreases total_len(lines@.subrange(lo as int, hi as int)), 0int, 0int,
    {
        if lo == hi {
            return Some(0);
        }
        let s = self.src;
        let ghost ls = lines@.subrange(lo as int, hi as int);
        assert(wf_spans(s@, ls));
        assert(s@.len() <= usize::MAX) by {
            assert(s.len() == s@.len());
        }
        let (p, lc) = match read_block(s, lines, lo, hi) {
            None => { return None; },
            Some(x) => x,
        };
        proof {
            lemma_read_count(cut_lines(s@, ls));
            assert(cut_lines(s@, ls)[0] == cut(s@, lines@[lo as int]));
        }
        let (span, bl) = block_lines_of(s, lines, lo, hi, p, lc);
        match p.kind {
            Block::Atom(a) => {
                self.tree.atom(a, span);
                Some(lc)
            },
            Block::Leaf(lf) => {
                let inl = match leaf_lines(s, lf, &bl) {
                    None => { return None; },
                    Some(v) => v,
                };
                self.parse_leaf(lf, span, &inl);
                Some(lc)
            },
            Block::Container(c) => {
                let skip_chars: usize = match c {
                    Container::Blockquote => 2,
                    Container::Div => 0,
                    _ => p.indent,
                };
                proof {
                    lemma_block_lines(ls, p, lc as int);
                }
                let inner = if matches!(c, Container::Div) { bl.len() - 1 } else { bl.len() };
                let quote = matches!(c, Container::Blockquote);
                let ls4 = match strip_lines(s, &bl, skip_chars, quote) {
                    None => { return None; },
                    Some(v) => v,
                };
                proof {
                    lemma_block_shrinks(s@, ls, p, lc as int, skip_chars as int, quote, ls4@, inner as int);
                    assert(wf_spans(s@, ls4@)) by {
                        assert forall|k: int| 0 <= k < ls4@.len() implies span_in(s@, #[trigger] ls4@[k]) by {
                            if k > 0 {
                                let x = bl@[k];
                                assert(span_in(s@, x));
                                lemma_ws_end_bounds(s@.subrange(x.start as int, x.end as int), 0, false);
                            }
                        }
                    }
                }
                if self.parse_container(c, span, &ls4, inner) {
                    Some(lc)
                } else {
                    None
                }
            },
        }
    }

    /// A leaf block with marker `x` and inline lines `inl`.
    fn parse_leaf(&mut self, lf: Leaf, x: Span, inl: &Vec<Span>)
        ensures
            final(self).source() == old(self).source(),
            final(self).state() == ps_exit(ps_inlines(ps_enter(old(self).state(), Node::Leaf(lf), x), inl@)),
    {
        self.tree.enter(Node::Leaf(lf), x);
        let ghost st1 = self.state();
        let ghost s = self.source();
        assert(inl@.subrange(0, inl@.len() as int) =~= inl@);
        let mut i: usize = 0;
        while i < inl.len()
            invariant
                i <= inl@.len(),
                self.source() == s,
                ps_inlines(st1, inl@) == ps_inlines(self.state(), inl@.subrange(i as int, inl@.len() as int)),
            decreases inl@.len() - i,
        {
            self.tree.inline(inl[i]);
            assert(inl@.subrange(i as int, inl@.len() as int).drop_first() =~= inl@.subrange(i + 1, inl@.len() as int));
            i = i + 1;
        }
        assert(inl@.subrange(i as int, inl@.len() as int).len() == 0);
        self.tree.exit();
    }

    /// A container with marker `x` whose children are the blocks of
    /// `lines[..inner]`; `false` where they cannot be parsed.
    fn parse_container(&mut self, c: Container, x: Span, lines: &Vec<Span>, inner: usize) -> (ok: bool)
        requires
            inner <= lines@.len() < usize::MAX,
            wf_spans(old(self).source(), lines@),
        ensures
            final(self).source() == old(self).source(),
            match spec_container(old(self).source(), c, x, lines@.subrange(0, inner as int), old(self).state()) {
                None => !ok,
                Some(st) => ok && final(self).state() == st,
            },
        decreases total_len(lines@.subrange(0, inner as int)), 2int, 0int,
    {
        if let Container::ListItem(ty) = c {
            let n_lists = self.lists_open.len();
            let open_new = n_lists == 0 || (self.lists_open[n_lists - 1].depth as usize) < self.tree.depth();
            let switch = !open_new && (self.lists_open[n_lists - 1].depth as usize) == self.tree.depth()
                && self.lists_open[n_lists - 1].ty != ty;
            if switch {
                self.tree.exit();
                self.lists_open.pop();
            }
            if open_new || switch {
                self.tree.enter(Node::Container(Container::List(ty)), x);
                let d = self.tree.depth();
                if d > 65535 {
                    return false;
                }
                self.lists_open.push(OpenList { ty, depth: d as u16 });
            }
        }
        self.tree.enter(Node::Container(c), x);
        proof {
            lemma_total_nonneg(lines@.subrange(0, inner as int));
        }
        if !self.parse_blocks(lines, 0, inner) {
            return false;
        }
        let n_lists = self.lists_open.len();
        if n_lists > 0 {
            let d = self.lists_open[n_lists - 1].depth as usize;
            let depth = self.tree.depth();
            if d > depth {
                return false;
            }
            if d == depth {
                self.tree.exit();
                self.lists_open.pop();
            }
        }
        self.tree.exit();
        true
    }

    /// Parses the blocks of `lines[lo..hi]` one after the other; `false` where
    /// the text cannot be parsed.
    fn parse_blocks(&mut self, lines: &Vec<Span>, lo: usize, hi: usize) -> (ok: bool)
        requires
            lo <= hi <= lines@.len(),
            lines@.len() < usize::MAX,
            wf_spans(old(self).source(), lines@),
        ensures
            final(self).source() == old(self).source(),
            match spec_blocks(old(self).source(), lines@.subrange(lo as int, hi as int), old(self).state()) {
                None => !ok,
                Some(st) => ok && final(self).state() == st,
            },
        decreases total_len(lines@.subrange(lo as int, hi as int)), 1int, hi - lo,
    {
        let ghost s = self.source();
        let ghost st0 = self.state();
        let mut l = lo;
        let mut ok = true;
        let mut done = false;
        while !done && l < hi
            invariant
                lo <= l <= hi <= lines@.len(),
                lines@.len() < usize::MAX,
                self.source() == s,
                wf_spans(s, lines@),
                !done ==> spec_blocks(s, lines@.subrange(lo as int, hi as int), st0) == spec_blocks(s, lines@.subrange(l as int, hi as int), self.state()),
                done && ok ==> spec_blocks(s, lines@.subrange(lo as int, hi as int), st0) == Some(self.state()),
                done && !ok ==> spec_blocks(s, lines@.subrange(lo as int, hi as int), st0) is None,
                !done ==> ok,
                total_len(lines@.subrange(l as int, hi as int)) <= total_len(lines@.subrange(lo as int, hi as int)),
            decreases hi - l, if done { 0int } else { 1int },
        {
            let ghost cur = lines@.subrange(l as int, hi as int);
            proof {
                lemma_total_nonneg(cur);
            }
            match self.parse_block(lines, l, hi) {
                None => {
                    ok = false;
                    done = true;
                },
                Some(c) => {
                    if c == 0 || c >= hi - l {
                        done = true;
                    } else {
                        proof {
                            lemma_total_split(cur, c as int);
                            assert(cur.subrange(c as int, cur.len() as int) =~= lines@.subrange(l + c, hi as int));
                        }
                        l = l + c;
                    }
                },
            }
        }
        if !done {
            assert(lines@.subrange(l as int, hi as int).len() == 0);
        }
        ok
    }

    /// Parses the document; `None` where the text cannot be parsed (a
    /// container's prefix, counted in characters but cut as bytes, ends inside
    /// a character; a table row is cut inside a character or
    /// is a lone `|`; or lists nest deeper than a `u16` counts). Every ASCII
    /// text without a `|` of at most 32768 bytes parses.
    pub fn try_parse(self) -> (r: Option<Tree>)
        requires
            self.state() == init_state(),
            self.source().len() < usize::MAX,
        ensures
            match spec_parse(self.source()) {
                None => r is None,
                Some(evs) => r matches Some(t) && t@ == evs,
            },
            r matches Some(t) ==> well_nested(t@) && inlines_single(self.source(), t@) && forall|i: int|
                0 <= i < t@.len() ==> span_in(self.source(), #[trigger] t@[i].span),
            plain(self.source()) && self.source().len() <= 0x8000 ==> r is Some,
            r matches Some(t) ==> inlines_in_order(t@) && lists_headed(t@) && items_in_lists(t@)
                && inlines_trimmed(self.source(), t@) && leaves_end_clean(self.source(), t@) && (valid_utf8(
                self.source(),
            ) ==> forall|i: int| 0 <= i < t@.len() ==> aligned(self.source(), #[trigger] t@[i].span))
                && forall|i: int|
                0 <= i < t@.len() ==> event_marked(self.source(), #[trigger] t@[i]),
    {
        let mut me = self;
        let ghost s = me.source();
        let lines = lines_of(me.src);
        proof {
            lemma_lines_structure(s);
            if plain(s) && s.len() <= 0x8000 {
                lemma_parse_accepts(s);
            }
            if spec_parse(s) is Some {
                lemma_parse_well_formed(s);
                lemma_parse_marks(s);
                lemma_parse_inlines_in_order(s);
                if valid_utf8(s) {
                    lemma_parse_aligned(s);
                }
            }
        }
        if !me.parse_blocks(&lines, 0, lines.len()) {
            assert(lines@.subrange(0, lines@.len() as int) =~= lines@);
            return None;
        }
        assert(lines@.subrange(0, lines@.len() as int) =~= lines@);
        let ghost st = spec_blocks(s, lines@, init_state())->0;
        assert(me.state() == st);
        let n = me.lists_open.len();
        let mut i: usize = 0;
        while i < n
            invariant
                i <= n,
                n == st.lists.len(),
                exit_n(me.tree@, (n - i) as nat) == exit_n(st.tree, n as nat),
            decreases n - i,
        {
            me.tree.exit();
            i = i + 1;
        }
        Some(me.tree.finish())
    }

    /// Parses the document.
    #[must_use]
    pub fn parse(self) -> (r: Tree)
        requires
            self.state() == init_state(),
            self.source().len() < usize::MAX,
            spec_parse(self.source()) is Some,
        ensures
            r@ == spec_parse(self.source())->0,
            well_nested(r@),
            inlines_single(self.source(), r@),
            forall|i: int| 0 <= i < r@.len() ==> span_in(self.source(), #[trigger] r@[i].span),
            forall|i: int| 0 <= i < r@.len() ==> event_marked(self.source(), #[trigger] r@[i]),
            lists_headed(r@),
            inlines_in_order(r@),
            items_in_lists(r@),
            inlines_trimmed(self.source(), r@),
            leaves_end_clean(self.source(), r@),
            valid_utf8(self.source()) ==> forall|i: int|
                0 <= i < r@.len() ==> aligned(self.source(), #[trigger] r@[i].span),
    {
        self.try_parse().unwrap()
    }
}

/// Parses the block-level structure of a document.
#[must_use]
pub fn parse(src: &str) -> (r: Tree)
    requires
        src.spec_bytes().len() < usize::MAX,
        spec_parse(src.spec_bytes()) is Some,
    ensures
        r@ == spec_parse(src.spec_bytes())->0,
        well_nested(r@),
        inlines_single(src.spec_bytes(), r@),
        forall|i: int| 0 <= i < r@.len() ==> span_in(src.spec_bytes(), #[trigger] r@[i].span),
        forall|i: int| 0 <= i < r@.len() ==> event_marked(src.spec_bytes(), #[trigger] r@[i]),
        lists_headed(r@),
        inlines_in_order(r@),
        items_in_lists(r@),
        inlines_trimmed(src.spec_bytes(), r@),
        leaves_end_clean(src.spec_bytes(), r@),
        forall|i: int| 0 <= i < r@.len() ==> aligned(src.spec_bytes(), #[trigger] r@[i].span),
{
    TreeParser::new(src).parse()
}

/// Similar to `str::split('\n')` but newline is included and spans are used
/// instead of `str`.
pub fn lines(src: &str) -> (r: Vec<Span>)
    ensures
        r@ == spec_lines(src.spec_bytes()),
        tiles(src.spec_bytes(), r@, 0),
{
    let b = src.as_bytes();
    let r = lines_of(b);
    proof {
        assert(b.len() == b@.len());
        lemma_lines_structure(src.spec_bytes());
    }
    r
}

} // verus!
