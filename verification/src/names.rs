//! How blocks are displayed: by the names of their variants, as `Debug` spells them.
use vstd::prelude::*;
use vstd::string::{StrSliceExecFns, StringExecFns};
use crate::block::{Atom, Block, Container, Leaf, ListType};
use crate::{OrderedListNumbering, OrderedListStyle};

verus! {

/// The decimal digit `d`.
pub open spec fn digit(d: int) -> Seq<char> {
    "0123456789"@.subrange(d, d + 1)
}

/// The decimal digits of `n`, without leading zeros.
pub open spec fn decimal(n: u8) -> Seq<char> {
    if n < 10 {
        digit(n as int)
    } else if n < 100 {
        digit((n / 10) as int) + digit((n % 10) as int)
    } else {
        digit((n / 100) as int) + digit((n % 100 / 10) as int) + digit((n % 10) as int)
    }
}

pub open spec fn numbering_name(n: OrderedListNumbering) -> Seq<char> {
    match n {
        OrderedListNumbering::Decimal => "Decimal"@,
        OrderedListNumbering::AlphaLower => "AlphaLower"@,
        OrderedListNumbering::AlphaUpper => "AlphaUpper"@,
        OrderedListNumbering::RomanLower => "RomanLower"@,
        OrderedListNumbering::RomanUpper => "RomanUpper"@,
    }
}

pub open spec fn style_name(s: OrderedListStyle) -> Seq<char> {
    match s {
        OrderedListStyle::Period => "Period"@,
        OrderedListStyle::Paren => "Paren"@,
        OrderedListStyle::ParenParen => "ParenParen"@,
    }
}

pub open spec fn list_type_name(t: ListType) -> Seq<char> {
    match t {
        ListType::Unordered(b) => "Unordered("@ + decimal(b) + ")"@,
        ListType::Ordered(n, s) => "Ordered("@ + numbering_name(n) + ", "@ + style_name(s) + ")"@,
        ListType::Task => "Task"@,
        ListType::Description => "Description"@,
    }
}

pub open spec fn container_name(c: Container) -> Seq<char> {
    match c {
        Container::Blockquote => "Blockquote"@,
        Container::Div => "Div"@,
        Container::List(t) => "List("@ + list_type_name(t) + ")"@,
        Container::ListItem(t) => "ListItem("@ + list_type_name(t) + ")"@,
        Container::Footnote => "Footnote"@,
    }
}

pub open spec fn leaf_name(l: Leaf) -> Seq<char> {
    match l {
        Leaf::Paragraph => "Paragraph"@,
        Leaf::Heading => "Heading"@,
        Leaf::Table => "Table"@,
        Leaf::LinkDefinition => "LinkDefinition"@,
        Leaf::CodeBlock => "CodeBlock"@,
    }
}

pub open spec fn atom_name(a: Atom) -> Seq<char> {
    match a {
        Atom::Blankline => "Blankline"@,
        Atom::Attributes => "Attributes"@,
        Atom::ThematicBreak => "ThematicBreak"@,
    }
}

/// A block displays as the name of what it holds.
pub open spec fn block_display(b: Block) -> Seq<char> {
    match b {
        Block::Atom(a) => atom_name(a),
        Block::Leaf(l) => leaf_name(l),
        Block::Container(c) => container_name(c),
    }
}

fn push_digit(out: &mut String, d: u8)
    requires
        d < 10,
    ensures
        final(out)@ == old(out)@ + digit(d as int),
{
    let digits = "0123456789";
    proof {
        reveal_strlit("0123456789");
    }
    out.append(digits.substring_char(d as usize, d as usize + 1));
}

fn push_decimal(out: &mut String, n: u8)
    ensures
        final(out)@ == old(out)@ + decimal(n),
{
    let ghost start = out@;
    if n < 10 {
        push_digit(out, n);
    } else if n < 100 {
        push_digit(out, n / 10);
        push_digit(out, n % 10);
        assert(out@ =~= start + decimal(n));
    } else {
        push_digit(out, n / 100);
        push_digit(out, n % 100 / 10);
        push_digit(out, n % 10);
        assert(out@ =~= start + decimal(n));
    }
}

fn push_list_type(out: &mut String, t: ListType)
    ensures
        final(out)@ == old(out)@ + list_type_name(t),
{
    match t {
        ListType::Unordered(b) => {
            out.append("Unordered(");
            push_decimal(out, b);
            out.append(")");
        },
        ListType::Ordered(n, s) => {
            out.append("Ordered(");
            out.append(
                match n {
                    OrderedListNumbering::Decimal => "Decimal",
                    OrderedListNumbering::AlphaLower => "AlphaLower",
                    OrderedListNumbering::AlphaUpper => "AlphaUpper",
                    OrderedListNumbering::RomanLower => "RomanLower",
                    OrderedListNumbering::RomanUpper => "RomanUpper",
                },
            );
            out.append(", ");
            out.append(
                match s {
                    OrderedListStyle::Period => "Period",
                    OrderedListStyle::Paren => "Paren",
                    OrderedListStyle::ParenParen => "ParenParen",
                },
            );
            out.append(")");
        },
        ListType::Task => out.append("Task"),
        ListType::Description => out.append("Description"),
    }
}

impl Block {
    /// The name of what the block holds, as `Debug` spells it (for a list
    /// item, say, `ListItem(Ordered(Decimal, Period))`).
    pub fn display(&self) -> (r: String)
        ensures
            r@ == block_display(*self),
    {
        let mut out = String::new();
        match *self {
            Block::Atom(a) => out.append(
                match a {
                    Atom::Blankline => "Blankline",
                    Atom::Attributes => "Attributes",
                    Atom::ThematicBreak => "ThematicBreak",
                },
            ),
            Block::Leaf(l) => out.append(
                match l {
                    Leaf::Paragraph => "Paragraph",
                    Leaf::Heading => "Heading",
                    Leaf::Table => "Table",
                    Leaf::LinkDefinition => "LinkDefinition",
                    Leaf::CodeBlock => "CodeBlock",
                },
            ),
            Block::Container(c) => match c {
                Container::Blockquote => out.append("Blockquote"),
                Container::Div => out.append("Div"),
                Container::List(t) => {
                    out.append("List(");
                    push_list_type(&mut out, t);
                    out.append(")");
                },
                Container::ListItem(t) => {
                    out.append("ListItem(");
                    push_list_type(&mut out, t);
                    out.append(")");
                },
                Container::Footnote => out.append("Footnote"),
            },
        }
        out
    }
}

impl Atom {
    /// An atom displays as `Inline`, whichever it is.
    pub fn display(&self) -> (r: String)
        ensures
            r@ == "Inline"@,
    {
        String::from_str("Inline")
    }
}

} // verus!
