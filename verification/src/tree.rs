//! The events of a parsed document, and the builder that records them.
use vstd::prelude::*;
use crate::block::{Atom, Node};
use crate::span::Span;

verus! {

/// What an event marks.
#[derive(Clone, Copy, Debug, PartialEq, Eq)]
pub enum EventKind {
    /// Start of a container or leaf block.
    Enter(Node),
    /// End of a container or leaf block.
    Exit(Node),
    /// A block without children.
    Atom(Atom),
    /// A line of inline content of a leaf block.
    Inline,
}

/// An event with the source bytes it refers to.
#[derive(Clone, Copy, Debug, PartialEq, Eq)]
pub struct Event {
    pub kind: EventKind,
    pub span: Span,
}

/// The events of a parsed document, in document order.
pub struct Tree {
    events: Vec<Event>,
}

impl View for Tree {
    type V = Seq<Event>;

    closed spec fn view(&self) -> Seq<Event> {
        self.events@
    }
}

impl Tree {
    /// The events, in document order.
    pub fn events(&self) -> (r: &Vec<Event>)
        ensures
            r@ == self@,
    {
        &self.events
    }

    /// The events, in document order.
    pub fn into_events(self) -> (r: Vec<Event>)
        ensures
            r@ == self@,
    {
        self.events
    }
}

/// What a builder has recorded: the events so far, and the blocks entered
/// and not yet exited, innermost last.
pub struct BuilderView {
    pub events: Seq<Event>,
    pub open: Seq<(Node, Span)>,
}

pub open spec fn b_enter(b: BuilderView, n: Node, s: Span) -> BuilderView {
    BuilderView {
        events: b.events.push(Event { kind: EventKind::Enter(n), span: s }),
        open: b.open.push((n, s)),
    }
}

/// Exiting closes the innermost open block; with none open it does nothing.
pub open spec fn b_exit(b: BuilderView) -> BuilderView {
    if b.open.len() == 0 {
        b
    } else {
        BuilderView {
            events: b.events.push(
                Event { kind: EventKind::Exit(b.open.last().0), span: b.open.last().1 },
            ),
            open: b.open.drop_last(),
        }
    }
}

pub open spec fn b_atom(b: BuilderView, a: Atom, s: Span) -> BuilderView {
    BuilderView { events: b.events.push(Event { kind: EventKind::Atom(a), span: s }), open: b.open }
}

pub open spec fn b_inline(b: BuilderView, s: Span) -> BuilderView {
    BuilderView { events: b.events.push(Event { kind: EventKind::Inline, span: s }), open: b.open }
}

/// Whether the innermost open block is a leaf.
pub open spec fn in_leaf(open: Seq<(Node, Span)>) -> bool {
    open.len() > 0 && open.last().0 is Leaf
}

/// The open blocks after event `e`, from the open blocks `open`; `None` where
/// the event is out of place: an exit that does not close the innermost open
/// block (with its node and span), a block inside a leaf, or an inline event
/// outside one.
pub open spec fn step(open: Seq<(Node, Span)>, e: Event) -> Option<Seq<(Node, Span)>> {
    match e.kind {
        EventKind::Enter(n) => if in_leaf(open) {
            None
        } else {
            Some(open.push((n, e.span)))
        },
        EventKind::Exit(n) => if open.len() > 0 && open.last() == (n, e.span) {
            Some(open.drop_last())
        } else {
            None
        },
        EventKind::Atom(_) => if in_leaf(open) {
            None
        } else {
            Some(open)
        },
        EventKind::Inline => if in_leaf(open) {
            Some(open)
        } else {
            None
        },
    }
}

/// The open blocks after the events, from none; `None` where an event is out
/// of place.
pub open spec fn replay(evs: Seq<Event>) -> Option<Seq<(Node, Span)>>
    decreases evs.len(),
{
    if evs.len() == 0 {
        Some(Seq::empty())
    } else {
        match replay(evs.drop_last()) {
            None => None,
            Some(open) => step(open, evs.last()),
        }
    }
}

/// Events that form a tree: every exit closes the innermost open block, with
/// its node and span; leaves hold only inline events, and inline events occur
/// only in leaves; nothing is left open at the end.
pub open spec fn well_nested(evs: Seq<Event>) -> bool {
    replay(evs) == Some(Seq::<(Node, Span)>::empty())
}

pub proof fn lemma_replay_push(evs: Seq<Event>, e: Event)
    ensures
        replay(evs.push(e)) == match replay(evs) {
            None => None,
            Some(open) => step(open, e),
        },
{
    assert(evs.push(e).drop_last() =~= evs);
}

/// Every prefix of events that replay replays too, one step at a time.
pub proof fn lemma_replay_prefix(evs: Seq<Event>, j: int)
    requires
        replay(evs) is Some,
        0 <= j <= evs.len(),
    ensures
        replay(evs.subrange(0, j)) is Some,
        j < evs.len() ==> replay(evs.subrange(0, j + 1)) == step(
            replay(evs.subrange(0, j))->0,
            evs[j],
        ),
    decreases evs.len() - j,
{
    if j < evs.len() {
        let p1 = evs.subrange(0, j + 1);
        assert(p1.drop_last() =~= evs.subrange(0, j));
        assert(p1.last() == evs[j]);
        lemma_replay_prefix(evs, j + 1);
        if j + 1 == evs.len() {
            assert(p1 =~= evs);
        }
    } else {
        assert(evs.subrange(0, j) =~= evs);
    }
}

/// In well-nested events, while a leaf is the innermost open block only inline
/// events and its exit occur, and an inline event occurs only there.
pub proof fn lemma_leaf_contents(evs: Seq<Event>, i: int)
    requires
        well_nested(evs),
        0 <= i < evs.len(),
    ensures
        replay(evs.subrange(0, i)) matches Some(o) && (in_leaf(o) ==> evs[i].kind is Inline
            || evs[i].kind is Exit) && (evs[i].kind is Inline ==> in_leaf(o)),
{
    lemma_replay_prefix(evs, i);
    lemma_replay_prefix(evs, i + 1);
}

/// Records the events of a document as its blocks are entered and exited.
pub struct TreeBuilder {
    events: Vec<Event>,
    open: Vec<(Node, Span)>,
}

impl View for TreeBuilder {
    type V = BuilderView;

    closed spec fn view(&self) -> BuilderView {
        BuilderView { events: self.events@, open: self.open@ }
    }
}

impl TreeBuilder {
    pub fn new() -> (r: TreeBuilder)
        ensures
            r@.events == Seq::<Event>::empty(),
            r@.open == Seq::<(Node, Span)>::empty(),
    {
        TreeBuilder { events: Vec::new(), open: Vec::new() }
    }

    pub fn enter(&mut self, n: Node, s: Span)
        ensures
            final(self)@ == b_enter(old(self)@, n, s),
    {
        self.events.push(Event { kind: EventKind::Enter(n), span: s });
        self.open.push((n, s));
    }

    pub fn exit(&mut self)
        ensures
            final(self)@ == b_exit(old(self)@),
    {
        if let Some((n, s)) = self.open.pop() {
            self.events.push(Event { kind: EventKind::Exit(n), span: s });
        }
    }

    pub fn atom(&mut self, a: Atom, s: Span)
        ensures
            final(self)@ == b_atom(old(self)@, a, s),
    {
        self.events.push(Event { kind: EventKind::Atom(a), span: s });
    }

    pub fn inline(&mut self, s: Span)
        ensures
            final(self)@ == b_inline(old(self)@, s),
    {
        self.events.push(Event { kind: EventKind::Inline, span: s });
    }

    /// Number of blocks entered and not yet exited.
    pub fn depth(&self) -> (r: usize)
        ensures
            r == self@.open.len(),
    {
        self.open.len()
    }

    pub fn finish(self) -> (r: Tree)
        ensures
            r@ == self@.events,
    {
        Tree { events: self.events }
    }
}

} // verus!
