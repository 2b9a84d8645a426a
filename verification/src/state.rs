//! What a matcher starts from and what it leaves behind.

use vstd::prelude::*;
use crate::error::FailureView;
use crate::node::span_views;
use crate::node::MatchNode;
use crate::node::NodeView;
use crate::position::common_prefix_len;
use crate::position::Position;
use crate::position::PositionView;
use crate::span::Span;
use crate::span::SpanView;
use crate::stack::Stack;
use crate::tracker::lemma_record;
use crate::tracker::Tracker;
use crate::tracker::TrackerView;

verus! {

/// What is threaded through the matchers of one parse: the offset of the
/// cursor, the entries of the backreference stack, the bottom first, and
/// the record of failures.
pub struct State {
    pub pos: nat,
    pub stack: Seq<SpanView>,
    pub tracker: TrackerView,
}

/// What a matcher leaves behind: the node of a successful match, or none,
/// and the state after it. A failed match leaves the cursor where it was.
pub struct Outcome {
    pub node: Option<NodeView>,
    pub state: State,
}

impl State {
    /// The cursor as a position of `input`.
    pub open spec fn at(self, input: Seq<char>) -> PositionView {
        PositionView { input, offset: self.pos }
    }

    /// The input ahead of the cursor.
    pub open spec fn rest(self, input: Seq<char>) -> Seq<char> {
        input.skip(self.pos as int)
    }

    /// The span from the cursor to `end`.
    pub open spec fn span_to(self, input: Seq<char>, end: nat) -> SpanView {
        SpanView { input, start: self.pos, end }
    }

    /// The same state with the cursor at `pos`.
    pub open spec fn moved(self, pos: nat) -> State {
        State { pos, ..self }
    }

    /// A match that yields `node` and leaves the cursor at `pos`.
    pub open spec fn accept(self, node: NodeView, pos: nat) -> Outcome {
        Outcome { node: Some(node), state: self.moved(pos) }
    }

    /// A failed match that records nothing.
    pub open spec fn reject(self) -> Outcome {
        Outcome { node: None, state: self }
    }

    /// A failed match that records `cause` at `offset`.
    pub open spec fn fail(self, input: Seq<char>, cause: FailureView, offset: nat) -> Outcome {
        Outcome {
            node: None,
            state: State {
                tracker: self.tracker.record(cause, PositionView { input, offset }),
                ..self
            },
        }
    }

    /// Matching the input ahead against `text`: the cursor moves past the
    /// text where the input begins with it; where not, the literal is
    /// recorded at the first character that differs.
    pub open spec fn match_text(self, input: Seq<char>, text: Seq<char>) -> Outcome {
        if text.is_prefix_of(self.rest(input)) {
            self.accept(NodeView::Empty, self.pos + text.len())
        } else {
            self.fail(
                input,
                FailureView::UnmatchedLiteral(text),
                self.pos + common_prefix_len(self.rest(input), text),
            )
        }
    }
}

impl Outcome {
    /// Whether the match succeeded.
    pub open spec fn matched(self) -> bool {
        self.node is Some
    }

    /// The same outcome with another node in place of the one matched.
    pub open spec fn with_node(self, node: NodeView) -> Outcome {
        Outcome { node: Some(node), ..self }
    }

    /// The state after the match, the cursor put back to `pos`.
    pub open spec fn back_to(self, pos: nat) -> State {
        self.state.moved(pos)
    }
}

/// Whether `out` can be the outcome of a matcher that started from `st`:
/// the match ends neither before its start nor behind the end of the
/// input, a failed match leaves the cursor where it was, and the record of
/// failures has moved on as [`TrackerView::precedes`] says.
pub open spec fn sound(input: Seq<char>, st: State, out: Outcome) -> bool {
    &&& st.pos <= out.state.pos <= input.len()
    &&& !out.matched() ==> out.state.pos == st.pos
    &&& st.tracker.precedes(out.state.tracker)
}

/// Matching a literal text is sound.
pub proof fn lemma_match_text(input: Seq<char>, st: State, text: Seq<char>)
    requires
        st.pos <= input.len(),
    ensures
        sound(input, st, st.match_text(input, text)),
        st.match_text(input, text).state.stack == st.stack,
{
    lemma_record(
        st.tracker,
        FailureView::UnmatchedLiteral(text),
        PositionView { input, offset: st.pos + common_prefix_len(st.rest(input), text) },
    );
}

/// The state that a cursor, a stack and a tracker amount to.
pub open spec fn state_of<'i>(
    position: Position<'i>,
    stack: Stack<Span<'i>>,
    tracker: Tracker<'i>,
) -> State {
    State { pos: position@.offset, stack: span_views(stack@), tracker: tracker@ }
}

/// Whether what a matcher returned, and the stack and the tracker it left,
/// are what `out` says. `start` is the cursor the matcher started from; a
/// match never ends before it.
pub open spec fn agrees<'i>(
    res: Option<(Position<'i>, MatchNode<'i>)>,
    start: Position<'i>,
    stack: Stack<Span<'i>>,
    tracker: Tracker<'i>,
    out: Outcome,
) -> bool {
    &&& span_views(stack@) == out.state.stack
    &&& tracker@ == out.state.tracker
    &&& match res {
        Some((position, node)) => {
            &&& out.node == Some(node@)
            &&& position@ == (PositionView { input: start@.input, offset: out.state.pos })
            &&& start@.offset <= out.state.pos
        },
        None => out.node is None && out.state.pos == start@.offset,
    }
}

/// Matches the input ahead of `input` against `text` and records a
/// mismatch in `tracker`.
pub fn match_text<'i>(input: &mut Position<'i>, text: &[char], tracker: &mut Tracker<'i>) -> (ok:
    bool)
    ensures
        ok == text@.is_prefix_of(old(input)@.rest()),
        final(input)@ == if ok {
            old(input)@.advance(text@.len())
        } else {
            old(input)@
        },
        final(tracker)@ == if ok {
            old(tracker)@
        } else {
            old(tracker)@.record(
                FailureView::UnmatchedLiteral(text@),
                old(input)@.advance(common_prefix_len(old(input)@.rest(), text@)),
            )
        },
{
    if input.match_literal(text) {
        true
    } else {
        let n = input.common_prefix(text);
        let mut far = *input;
        far.skip(n);
        tracker.record_unmatched_literal(text, far);
        false
    }
}

} // verus!
