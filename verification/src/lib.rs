//! Block-level parsing of djot markup into a tree of events.
pub mod accept;
pub mod attr;
pub mod block;
pub mod boundaries;
pub mod markers;
pub mod names;
pub mod nesting;
pub mod order;
pub mod reading;
pub mod span;
pub mod text;
pub mod tree;

use vstd::prelude::*;

verus! {

/// How the items of an ordered list are numbered.
#[derive(Clone, Copy, Debug, PartialEq, Eq, Structural)]
pub enum OrderedListNumbering {
    /// `1, 2, 3`
    Decimal,
    /// `a, b, c`
    AlphaLower,
    /// `A, B, C`
    AlphaUpper,
    /// `i, ii, iii`
    RomanLower,
    /// `I, II, III`
    RomanUpper,
}

/// How the number of an ordered list item is marked.
#[derive(Clone, Copy, Debug, PartialEq, Eq, Structural)]
pub enum OrderedListStyle {
    /// `1.`
    Period,
    /// `1)`
    Paren,
    /// `(1)`
    ParenParen,
}

} // verus!
