//! Validation of an attribute block such as `{#id .class key=value key="quoted"}`.
use vstd::prelude::*;
use crate::text::{char_len, char_len_at, is_ws, is_ws_at};

verus! {

/// Where the attribute scanner stands after reading a character.
#[derive(Clone, Copy, Debug, PartialEq, Eq, Structural)]
pub enum AttrState {
    Start,
    Whitespace,
    Comment,
    ClassFirst,
    Class,
    IdentifierFirst,
    Identifier,
    Key,
    ValueFirst,
    Value,
    ValueQuoted,
    ValueEscape,
    Done,
    Invalid,
}

/// Bytes that may appear in a class, an identifier, a key or an unquoted value.
pub open spec fn is_name_byte(b: u8) -> bool {
    (0x30 <= b <= 0x39) || (0x41 <= b <= 0x5a) || (0x61 <= b <= 0x7a) || b == 0x3a || b == 0x5f
        || b == 0x2d
}

/// The state after reading the character that starts at byte `i` of `t` in state `s`.
pub open spec fn attr_step(s: AttrState, t: Seq<u8>, i: int) -> AttrState {
    let c = t[i];
    match s {
        AttrState::Start => if c == 0x7b { AttrState::Whitespace } else { AttrState::Invalid },
        AttrState::Whitespace => if c == 0x7d {
            AttrState::Done
        } else if c == 0x2e {
            AttrState::ClassFirst
        } else if c == 0x23 {
            AttrState::IdentifierFirst
        } else if c == 0x25 {
            AttrState::Comment
        } else if is_name_byte(c) {
            AttrState::Key
        } else if is_ws_at(t, i) {
            AttrState::Whitespace
        } else {
            AttrState::Invalid
        },
        AttrState::Comment => if c == 0x25 { AttrState::Whitespace } else { AttrState::Comment },
        AttrState::ClassFirst => if is_name_byte(c) { AttrState::Class } else { AttrState::Invalid },
        AttrState::IdentifierFirst => if is_name_byte(c) {
            AttrState::Identifier
        } else {
            AttrState::Invalid
        },
        AttrState::Class | AttrState::Identifier | AttrState::Value => if is_name_byte(c) {
            s
        } else if is_ws_at(t, i) {
            AttrState::Whitespace
        } else if c == 0x7d {
            AttrState::Done
        } else {
            AttrState::Invalid
        },
        AttrState::Key => if is_name_byte(c) {
            AttrState::Key
        } else if c == 0x3d {
            AttrState::ValueFirst
        } else {
            AttrState::Invalid
        },
        AttrState::ValueFirst => if is_name_byte(c) {
            AttrState::Value
        } else if c == 0x22 {
            AttrState::ValueQuoted
        } else {
            AttrState::Invalid
        },
        AttrState::ValueQuoted => if c == 0x5c {
            AttrState::ValueEscape
        } else if c == 0x22 {
            AttrState::Whitespace
        } else {
            AttrState::ValueQuoted
        },
        AttrState::ValueEscape => AttrState::ValueQuoted,
        AttrState::Done => AttrState::Done,
        AttrState::Invalid => AttrState::Invalid,
    }
}

/// Length of the attribute block read from byte `i` on in state `s`: the position
/// right after its closing brace, or 0 where the text is no attribute block.
pub open spec fn attr_end(t: Seq<u8>, i: int, s: AttrState) -> int
    decreases t.len() - i,
{
    if s == AttrState::Done {
        i
    } else if s == AttrState::Invalid || !(0 <= i < t.len()) {
        0
    } else {
        attr_end(t, i + char_len_at(t, i), attr_step(s, t, i))
    }
}

/// Number of bytes of the attribute block at the start of `t`, or 0 where `t`
/// does not start with one.
pub open spec fn attr_len(t: Seq<u8>) -> int {
    attr_end(t, 0, AttrState::Start)
}

fn is_name(b: u8) -> (r: bool)
    ensures
        r == is_name_byte(b),
{
    (0x30 <= b && b <= 0x39) || (0x41 <= b && b <= 0x5a) || (0x61 <= b && b <= 0x7a) || b == 0x3a
        || b == 0x5f || b == 0x2d
}

fn step(s: AttrState, t: &[u8], i: usize) -> (r: AttrState)
    requires
        i < t@.len(),
    ensures
        r == attr_step(s, t@, i as int),
{
    let c = t[i];
    match s {
        AttrState::Start => if c == 0x7b { AttrState::Whitespace } else { AttrState::Invalid },
        AttrState::Whitespace => if c == 0x7d {
            AttrState::Done
        } else if c == 0x2e {
            AttrState::ClassFirst
        } else if c == 0x23 {
            AttrState::IdentifierFirst
        } else if c == 0x25 {
            AttrState::Comment
        } else if is_name(c) {
            AttrState::Key
        } else if is_ws(t, i) {
            AttrState::Whitespace
        } else {
            AttrState::Invalid
        },
        AttrState::Comment => if c == 0x25 { AttrState::Whitespace } else { AttrState::Comment },
        AttrState::ClassFirst => if is_name(c) { AttrState::Class } else { AttrState::Invalid },
        AttrState::IdentifierFirst => if is_name(c) {
            AttrState::Identifier
        } else {
            AttrState::Invalid
        },
        AttrState::Class | AttrState::Identifier | AttrState::Value => if is_name(c) {
            s
        } else if is_ws(t, i) {
            AttrState::Whitespace
        } else if c == 0x7d {
            AttrState::Done
        } else {
            AttrState::Invalid
        },
        AttrState::Key => if is_name(c) {
            AttrState::Key
        } else if c == 0x3d {
            AttrState::ValueFirst
        } else {
            AttrState::Invalid
        },
        AttrState::ValueFirst => if is_name(c) {
            AttrState::Value
        } else if c == 0x22 {
            AttrState::ValueQuoted
        } else {
            AttrState::Invalid
        },
        AttrState::ValueQuoted => if c == 0x5c {
            AttrState::ValueEscape
        } else if c == 0x22 {
            AttrState::Whitespace
        } else {
            AttrState::ValueQuoted
        },
        AttrState::ValueEscape => AttrState::ValueQuoted,
        AttrState::Done => AttrState::Done,
        AttrState::Invalid => AttrState::Invalid,
    }
}

/// Number of bytes of the attribute block at the start of `t` (0 where there is none).
pub fn valid(t: &[u8]) -> (r: usize)
    ensures
        r == attr_len(t@),
        r <= t@.len(),
{
    let mut i: usize = 0;
    let mut s = AttrState::Start;
    while i < t.len() && s != AttrState::Done && s != AttrState::Invalid
        invariant
            i <= t@.len(),
            attr_len(t@) == attr_end(t@, i as int, s),
        decreases t@.len() - i,
    {
        let w = char_len(t, i);
        s = step(s, t, i);
        i = i + w;
    }
    if s == AttrState::Done {
        i
    } else {
        0
    }
}

} // verus!
