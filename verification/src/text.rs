//! Character-level views of UTF-8 text, stated over its bytes.
//!
//! All scanning steps from one character to the next by the width that the
//! leading byte announces, so that a position reached from a character boundary
//! of valid UTF-8 is again a character boundary.
use vstd::prelude::*;

verus! {

/// Number of bytes of the UTF-8 character whose leading byte is `b`
/// (a stray continuation byte counts as one).
pub open spec fn utf8_width(b: u8) -> int {
    if b < 0xc0 {
        1
    } else if b < 0xe0 {
        2
    } else if b < 0xf0 {
        3
    } else {
        4
    }
}

/// Width of the character that starts at byte `i` of `t`, cut at the end of `t`.
pub open spec fn char_len_at(t: Seq<u8>, i: int) -> int {
    if i + utf8_width(t[i]) <= t.len() {
        utf8_width(t[i])
    } else {
        t.len() - i
    }
}

/// Whether the character that starts at byte `i` of `t` is white space in the
/// sense of `char::is_whitespace` (the Unicode `White_Space` property):
/// U+0009..U+000D, U+0020, U+0085, U+00A0, U+1680, U+2000..U+200A, U+2028,
/// U+2029, U+202F, U+205F and U+3000, written here as their UTF-8 bytes.
pub open spec fn is_ws_at(t: Seq<u8>, i: int) -> bool {
    let b = t[i];
    ||| (9 <= b <= 13 || b == 32)
    ||| (b == 0xc2 && i + 1 < t.len() && (t[i + 1] == 0x85 || t[i + 1] == 0xa0))
    ||| (b == 0xe1 && i + 2 < t.len() && t[i + 1] == 0x9a && t[i + 2] == 0x80)
    ||| (b == 0xe2 && i + 2 < t.len() && t[i + 1] == 0x80 && ((0x80 <= t[i + 2] <= 0x8a)
        || t[i + 2] == 0xa8 || t[i + 2] == 0xa9 || t[i + 2] == 0xaf))
    ||| (b == 0xe2 && i + 2 < t.len() && t[i + 1] == 0x81 && t[i + 2] == 0x9f)
    ||| (b == 0xe3 && i + 2 < t.len() && t[i + 1] == 0x80 && t[i + 2] == 0x80)
}

/// Whether byte index `i` of `t` is a character boundary, as `str::is_char_boundary`
/// decides it: the start, the end, or a byte that is not a continuation byte.
pub open spec fn boundary(t: Seq<u8>, i: int) -> bool {
    i == 0 || i == t.len() || (0 < i < t.len() && !(0x80 <= t[i] && t[i] < 0xc0))
}

/// End of the run of white-space characters that starts at byte `i`; with
/// `stop_nl`, a newline ends the run.
pub open spec fn ws_end(t: Seq<u8>, i: int, stop_nl: bool) -> int
    decreases t.len() - i,
{
    if 0 <= i < t.len() && is_ws_at(t, i) && !(stop_nl && t[i] == 10) {
        ws_end(t, i + char_len_at(t, i), stop_nl)
    } else {
        i
    }
}

/// Number of characters in the run that `ws_end` measures.
pub open spec fn ws_count(t: Seq<u8>, i: int, stop_nl: bool) -> int
    decreases t.len() - i,
{
    if 0 <= i < t.len() && is_ws_at(t, i) && !(stop_nl && t[i] == 10) {
        1 + ws_count(t, i + char_len_at(t, i), stop_nl)
    } else {
        0
    }
}

/// End of the last character from byte `i` on that is not white space, or
/// `acc` where there is none.
pub open spec fn nonws_end(t: Seq<u8>, i: int, acc: int) -> int
    decreases t.len() - i,
{
    if 0 <= i < t.len() {
        let w = char_len_at(t, i);
        nonws_end(t, i + w, if is_ws_at(t, i) { acc } else { i + w })
    } else {
        acc
    }
}

/// Whether some character from byte `i` on is white space.
pub open spec fn has_ws(t: Seq<u8>, i: int) -> bool
    decreases t.len() - i,
{
    if 0 <= i < t.len() {
        is_ws_at(t, i) || has_ws(t, i + char_len_at(t, i))
    } else {
        false
    }
}

/// Where `str::trim_start` leaves its result: after the leading white space.
pub open spec fn trim_start_pos(t: Seq<u8>) -> int {
    ws_end(t, 0, false)
}

/// Where `str::trim_end` ends its result: after the last character that is not
/// white space, and at 0 where every character is white space.
pub open spec fn trim_end_pos(t: Seq<u8>) -> int {
    nonws_end(t, 0, 0)
}

/// Whether every character of `t` is white space (so that `trim` leaves nothing).
pub open spec fn all_ws(t: Seq<u8>) -> bool {
    trim_start_pos(t) == t.len()
}

/// The range that `str::trim` returns: from the first to the end of the last
/// character that is not white space, and the empty range at 0 where there is none.
pub open spec fn trim_range(t: Seq<u8>) -> (int, int) {
    if all_ws(t) {
        (0, 0)
    } else {
        (trim_start_pos(t), trim_end_pos(t))
    }
}

/// Number of bytes equal to `b` in a row from byte `i` on.
pub open spec fn run_of(t: Seq<u8>, i: int, b: u8) -> int
    decreases t.len() - i,
{
    if 0 <= i < t.len() && t[i] == b {
        1 + run_of(t, i + 1, b)
    } else {
        0
    }
}

pub proof fn lemma_char_len(t: Seq<u8>, i: int)
    requires
        0 <= i < t.len(),
    ensures
        1 <= char_len_at(t, i) <= t.len() - i,
        t[i] < 0x80 ==> char_len_at(t, i) == 1,
{
}

pub proof fn lemma_ws_end_bounds(t: Seq<u8>, i: int, stop_nl: bool)
    requires
        0 <= i <= t.len(),
    ensures
        i <= ws_end(t, i, stop_nl) <= t.len(),
        0 <= ws_count(t, i, stop_nl) <= ws_end(t, i, stop_nl) - i,
        ws_end(t, i, stop_nl) < t.len() ==> !is_ws_at(t, ws_end(t, i, stop_nl)) || (stop_nl
            && t[ws_end(t, i, stop_nl)] == 10),
    decreases t.len() - i,
{
    if 0 <= i < t.len() && is_ws_at(t, i) && !(stop_nl && t[i] == 10) {
        lemma_char_len(t, i);
        lemma_ws_end_bounds(t, i + char_len_at(t, i), stop_nl);
    }
}

pub proof fn lemma_nonws_end_bounds(t: Seq<u8>, i: int, acc: int)
    requires
        0 <= i <= t.len(),
        0 <= acc <= i,
    ensures
        acc <= nonws_end(t, i, acc) <= t.len(),
    decreases t.len() - i,
{
    if 0 <= i < t.len() {
        lemma_char_len(t, i);
        let w = char_len_at(t, i);
        lemma_nonws_end_bounds(t, i + w, if is_ws_at(t, i) { acc } else { i + w });
    }
}

/// `nonws_end` keeps its accumulator or ends past `i`.
pub proof fn lemma_nonws_end_moves(t: Seq<u8>, i: int, acc: int)
    requires
        0 <= acc <= i <= t.len(),
    ensures
        nonws_end(t, i, acc) == acc || nonws_end(t, i, acc) > i,
    decreases t.len() - i,
{
    if i < t.len() {
        lemma_char_len(t, i);
        let w = char_len_at(t, i);
        lemma_nonws_end_moves(t, i + w, if is_ws_at(t, i) { acc } else { i + w });
    }
}

/// Cutting `t` at the end `m` of its last character that is not white space
/// (from byte `i` on) leaves that end where it is: the cut text ends with no
/// white space.
pub proof fn lemma_nonws_end_prefix(t: Seq<u8>, i: int, acc: int)
    requires
        0 <= acc <= i <= t.len(),
        i <= nonws_end(t, i, acc),
    ensures
        nonws_end(t.subrange(0, nonws_end(t, i, acc)), i, acc) == nonws_end(t, i, acc),
    decreases t.len() - i,
{
    let m = nonws_end(t, i, acc);
    lemma_nonws_end_bounds(t, i, acc);
    lemma_nonws_end_moves(t, i, acc);
    let u = t.subrange(0, m);
    if i < t.len() && i < m {
        lemma_char_len(t, i);
        let w = char_len_at(t, i);
        let acc2 = if is_ws_at(t, i) { acc } else { i + w };
        lemma_nonws_end_bounds(t, i + w, acc2);
        lemma_nonws_end_moves(t, i + w, acc2);
        assert(i + w <= m);
        if m == t.len() {
            assert(u =~= t);
        }
        assert(u[i] == t[i]);
        if i + 1 < m {
            assert(u[i + 1] == t[i + 1]);
        }
        if i + 2 < m {
            assert(u[i + 2] == t[i + 2]);
        }
        assert(char_len_at(u, i) == w);
        assert(is_ws_at(u, i) == is_ws_at(t, i));
        lemma_nonws_end_prefix(t, i + w, acc2);
    }
}

/// The white space that a newline ends is the start of the run that no
/// newline ends.
pub proof fn lemma_ws_end_split(t: Seq<u8>, i: int)
    requires
        0 <= i <= t.len(),
    ensures
        ws_end(t, i, false) == ws_end(t, ws_end(t, i, true), false),
    decreases t.len() - i,
{
    if 0 <= i < t.len() && is_ws_at(t, i) && t[i] != 10 {
        lemma_char_len(t, i);
        lemma_ws_end_split(t, i + char_len_at(t, i));
    }
}

pub proof fn lemma_run_of_bounds(t: Seq<u8>, i: int, b: u8)
    requires
        0 <= i <= t.len(),
    ensures
        0 <= run_of(t, i, b) <= t.len() - i,
        forall|j: int| i <= j < i + run_of(t, i, b) ==> t[j] == b,
        i + run_of(t, i, b) < t.len() ==> t[i + run_of(t, i, b)] != b,
    decreases t.len() - i,
{
    if 0 <= i < t.len() && t[i] == b {
        lemma_run_of_bounds(t, i + 1, b);
    }
}

/// Width of the character at byte `i`.
pub fn char_len(t: &[u8], i: usize) -> (w: usize)
    requires
        i < t@.len(),
    ensures
        w == char_len_at(t@, i as int),
        1 <= w <= t@.len() - i,
{
    let b = t[i];
    let u: usize = if b < 0xc0 {
        1
    } else if b < 0xe0 {
        2
    } else if b < 0xf0 {
        3
    } else {
        4
    };
    if u <= t.len() - i {
        u
    } else {
        t.len() - i
    }
}

/// Whether the character at byte `i` is white space.
pub fn is_ws(t: &[u8], i: usize) -> (r: bool)
    requires
        i < t@.len(),
    ensures
        r == is_ws_at(t@, i as int),
{
    let b = t[i];
    let n = t.len();
    if (9 <= b && b <= 13) || b == 32 {
        true
    } else if b == 0xc2 {
        i + 1 < n && (t[i + 1] == 0x85 || t[i + 1] == 0xa0)
    } else if b == 0xe1 {
        n - i > 2 && t[i + 1] == 0x9a && t[i + 2] == 0x80
    } else if b == 0xe2 {
        if n - i > 2 {
            let b1 = t[i + 1];
            let b2 = t[i + 2];
            (b1 == 0x80 && ((0x80 <= b2 && b2 <= 0x8a) || b2 == 0xa8 || b2 == 0xa9 || b2 == 0xaf))
                || (b1 == 0x81 && b2 == 0x9f)
        } else {
            false
        }
    } else if b == 0xe3 {
        n - i > 2 && t[i + 1] == 0x80 && t[i + 2] == 0x80
    } else {
        false
    }
}

/// Whether byte index `i` is a character boundary of `t`.
pub fn is_boundary(t: &[u8], i: usize) -> (r: bool)
    requires
        i <= t@.len(),
    ensures
        r == boundary(t@, i as int),
{
    i == 0 || i == t.len() || !(0x80 <= t[i] && t[i] < 0xc0)
}

/// The run of white space from byte `from`: its end and its number of characters.
pub fn ws_run(t: &[u8], from: usize, stop_nl: bool) -> (r: (usize, usize))
    requires
        from <= t@.len(),
    ensures
        r.0 == ws_end(t@, from as int, stop_nl),
        r.1 == ws_count(t@, from as int, stop_nl),
        from <= r.0 <= t@.len(),
        r.1 <= r.0 - from,
{
    let mut i = from;
    let mut count: usize = 0;
    while i < t.len() && is_ws(t, i) && !(stop_nl && t[i] == 10)
        invariant
            from <= i <= t@.len(),
            count <= i - from,
            ws_end(t@, from as int, stop_nl) == ws_end(t@, i as int, stop_nl),
            ws_count(t@, from as int, stop_nl) == count + ws_count(t@, i as int, stop_nl),
        decreases t@.len() - i,
    {
        let w = char_len(t, i);
        i = i + w;
        count = count + 1;
    }
    (i, count)
}

/// Where `str::trim_end` ends its result.
pub fn trim_end(t: &[u8]) -> (r: usize)
    ensures
        r == trim_end_pos(t@),
        r <= t@.len(),
{
    let mut i: usize = 0;
    let mut acc: usize = 0;
    while i < t.len()
        invariant
            i <= t@.len(),
            acc <= i,
            nonws_end(t@, 0, 0) == nonws_end(t@, i as int, acc as int),
        decreases t@.len() - i,
    {
        let w = char_len(t, i);
        if !is_ws(t, i) {
            acc = i + w;
        }
        i = i + w;
    }
    acc
}

/// The range that `str::trim` returns.
pub fn trim(t: &[u8]) -> (r: (usize, usize))
    ensures
        r.0 == trim_range(t@).0,
        r.1 == trim_range(t@).1,
        r.0 <= r.1 <= t@.len(),
{
    let (a, _) = ws_run(t, 0, false);
    if a == t.len() {
        (0, 0)
    } else {
        let b = trim_end(t);
        proof {
            lemma_trim_order(t@);
        }
        (a, b)
    }
}

pub proof fn lemma_nonws_end_after(t: Seq<u8>, i: int, acc: int)
    requires
        0 <= i < t.len(),
        !is_ws_at(t, i),
        0 <= acc <= i,
    ensures
        nonws_end(t, i, acc) >= i + char_len_at(t, i),
    decreases t.len() - i,
{
    lemma_char_len(t, i);
    lemma_nonws_end_bounds(t, i + char_len_at(t, i), i + char_len_at(t, i));
}

pub proof fn lemma_ws_then_nonws(t: Seq<u8>, i: int, acc: int)
    requires
        0 <= i <= t.len(),
        0 <= acc <= i,
        ws_end(t, i, false) < t.len(),
    ensures
        nonws_end(t, i, acc) > ws_end(t, i, false),
    decreases t.len() - i,
{
    lemma_ws_end_bounds(t, i, false);
    if 0 <= i < t.len() && is_ws_at(t, i) {
        lemma_char_len(t, i);
        lemma_ws_then_nonws(t, i + char_len_at(t, i), acc);
    } else {
        lemma_nonws_end_after(t, i, acc);
        lemma_char_len(t, i);
    }
}

/// `trim` never returns a backwards range.
pub proof fn lemma_trim_order(t: Seq<u8>)
    ensures
        0 <= trim_range(t).0 <= trim_range(t).1 <= t.len(),
{
    lemma_ws_end_bounds(t, 0, false);
    lemma_nonws_end_bounds(t, 0, 0);
    if !all_ws(t) {
        lemma_ws_then_nonws(t, 0, 0);
    }
}

/// Whether some character from byte `from` on is white space.
pub fn any_ws(t: &[u8], from: usize) -> (r: bool)
    requires
        from <= t@.len(),
    ensures
        r == has_ws(t@, from as int),
{
    let mut i = from;
    while i < t.len()
        invariant
            from <= i <= t@.len(),
            has_ws(t@, from as int) == has_ws(t@, i as int),
        decreases t@.len() - i,
    {
        if is_ws(t, i) {
            return true;
        }
        let w = char_len(t, i);
        i = i + w;
    }
    false
}

/// Number of bytes equal to `b` in a row from byte `from` on.
pub fn count_run(t: &[u8], from: usize, b: u8) -> (r: usize)
    requires
        from <= t@.len(),
    ensures
        r == run_of(t@, from as int, b),
        r <= t@.len() - from,
{
    let mut i = from;
    while i < t.len() && t[i] == b
        invariant
            from <= i <= t@.len(),
            run_of(t@, from as int, b) == (i - from) + run_of(t@, i as int, b),
        decreases t@.len() - i,
    {
        i = i + 1;
    }
    proof {
        lemma_run_of_bounds(t@, from as int, b);
    }
    i - from
}

} // verus!
