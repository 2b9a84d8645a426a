//! Matchers that recall what the backreference stack holds.

use vstd::prelude::*;
use crate::error::FailureView;
use crate::node::span_views;
use crate::node::MatchNode;
use crate::node::NodeView;
use crate::position::common_prefix_len;
use crate::position::Position;
use crate::position::PositionView;
use crate::span::Span;
use crate::span::SpanView;
use crate::stack::between;
use crate::stack::resolve_range;
use crate::stack::signed;
use crate::stack::Stack;
use crate::state::agrees;
use crate::state::lemma_match_text;
use crate::state::match_text;
use crate::state::sound;
use crate::state::state_of;
use crate::state::Outcome;
use crate::state::State;
use crate::combinator::Context;
use crate::typed_node::TypedNode;
use crate::tracker::lemma_record;
use crate::tracker::Tracker;
use crate::tracker::TrackerView;

verus! {

/// How far a run of literal matches got: the offset behind the last of
/// them, or none where one did not match, and the record of failures.
pub struct Progress {
    pub end: Option<nat>,
    pub tracker: TrackerView,
}

/// Matching the input from `pos` against the texts of `entries` one after
/// the other, the last entry first. The run ends at the first text that
/// the input does not continue with, and records it there.
pub open spec fn match_entries(
    input: Seq<char>,
    pos: nat,
    tracker: TrackerView,
    entries: Seq<SpanView>,
) -> Progress
    decreases entries.len(),
{
    if entries.len() == 0 {
        Progress { end: Some(pos), tracker }
    } else {
        let text = entries.last().text();
        if text.is_prefix_of(input.skip(pos as int)) {
            match_entries(input, pos + text.len(), tracker, entries.drop_last())
        } else {
            Progress {
                end: None,
                tracker: tracker.record(
                    FailureView::UnmatchedLiteral(text),
                    PositionView {
                        input,
                        offset: pos + common_prefix_len(input.skip(pos as int), text),
                    },
                ),
            }
        }
    }
}

/// The texts of `entries` one after the other, the last entry first.
pub open spec fn joined(entries: Seq<SpanView>) -> Seq<char>
    decreases entries.len(),
{
    if entries.len() == 0 {
        Seq::empty()
    } else {
        entries.last().text() + joined(entries.drop_last())
    }
}

/// A run of literal matches succeeds exactly when the input continues
/// with the texts joined, and then ends behind them.
pub proof fn lemma_match_entries(
    input: Seq<char>,
    pos: nat,
    tracker: TrackerView,
    entries: Seq<SpanView>,
)
    requires
        pos <= input.len(),
    ensures
        match_entries(input, pos, tracker, entries).end is Some <==> joined(entries).is_prefix_of(
            input.skip(pos as int),
        ),
        match_entries(input, pos, tracker, entries).end matches Some(end) ==> end == pos + joined(
            entries,
        ).len() && match_entries(input, pos, tracker, entries).tracker == tracker,
    decreases entries.len(),
{
    if entries.len() > 0 {
        let text = entries.last().text();
        let rest = input.skip(pos as int);
        let tail = joined(entries.drop_last());
        if text.is_prefix_of(rest) {
            let next = pos + text.len();
            lemma_match_entries(input, next, tracker, entries.drop_last());
            if (text + tail).is_prefix_of(rest) {
                assert forall|i: int| 0 <= i < tail.len() implies tail[i] == input.skip(
                    next as int,
                )[i] by {
                    assert(rest.subrange(0, (text + tail).len() as int)[text.len() + i]
                        == rest[text.len() + i]);
                }
            }
        }
    }
}

/// A run of literal matches ends neither before its start nor behind the
/// end of the input, and moves the record on as recording does.
pub proof fn lemma_run(input: Seq<char>, pos: nat, tracker: TrackerView, entries: Seq<SpanView>)
    requires
        pos <= input.len(),
    ensures
        match_entries(input, pos, tracker, entries).end matches Some(end) ==> pos <= end
            <= input.len(),
        tracker.precedes(match_entries(input, pos, tracker, entries).tracker),
    decreases entries.len(),
{
    if entries.len() > 0 {
        let text = entries.last().text();
        if text.is_prefix_of(input.skip(pos as int)) {
            lemma_run(input, pos + text.len(), tracker, entries.drop_last());
        } else {
            lemma_record(
                tracker,
                FailureView::UnmatchedLiteral(text),
                PositionView {
                    input,
                    offset: pos + common_prefix_len(input.skip(pos as int), text),
                },
            );
        }
    }
}

/// The outcome of a run of literal matches that started from `st`: the
/// node that `node` makes of the span covered, or a failure.
pub open spec fn conclude(
    st: State,
    input: Seq<char>,
    progress: Progress,
    node: spec_fn(SpanView) -> NodeView,
) -> Outcome {
    match progress.end {
        Some(end) => Outcome {
            node: Some(node(st.span_to(input, end))),
            state: State { pos: end, tracker: progress.tracker, ..st },
        },
        None => Outcome { node: None, state: State { tracker: progress.tracker, ..st } },
    }
}

/// The entries of the stack that a signed range denotes, or an
/// out-of-bound failure recorded at `input`.
pub fn stack_slice<'s, 'i>(
    input: Position<'i>,
    start: i32,
    end: Option<i32>,
    stack: &'s Stack<Span<'i>>,
    tracker: &mut Tracker<'i>,
) -> (res: Option<&'s [Span<'i>]>)
    ensures
        match resolve_range(start as int, signed(end), stack@.len()) {
            Some(bounds) => res matches Some(entries) && entries@ == between(stack@, bounds)
                && final(tracker)@ == old(tracker)@,
            None => res is None && final(tracker)@ == old(tracker)@.record(
                FailureView::SliceOutOfBound(start as int, signed(end)),
                input@,
            ),
        },
{
    match stack.slice(start, end) {
        Ok(entries) => Some(entries),
        Err(_) => {
            tracker.record_out_of_bound(start, end, input);
            None
        },
    }
}

/// Matches the input at `input` against the texts of `spans` one after
/// the other, the last span first, and returns the span covered.
pub fn peek_spans<'i>(input: Position<'i>, spans: &[Span<'i>], tracker: &mut Tracker<'i>) -> (res:
    Option<(Position<'i>, Span<'i>)>)
    ensures
        final(tracker)@ == match_entries(
            input@.input,
            input@.offset,
            old(tracker)@,
            span_views(spans@),
        ).tracker,
        match match_entries(input@.input, input@.offset, old(tracker)@, span_views(spans@)).end {
            Some(end) => res matches Some((position, span)) && position@ == (PositionView {
                input: input@.input,
                offset: end,
            }) && span@ == (SpanView { input: input@.input, start: input@.offset, end })
                && input@.offset <= end,
            None => res is None,
        },
{
    let ghost entries = span_views(spans@);
    let ghost goal = match_entries(input@.input, input@.offset, tracker@, entries);
    let mut position = input;
    let mut k: usize = spans.len();
    assert(entries.take(k as int) =~= entries);
    while k > 0
        invariant
            k <= spans@.len(),
            entries == span_views(spans@),
            position@.input == input@.input,
            input@.offset <= position@.offset,
            goal == match_entries(input@.input, input@.offset, old(tracker)@, entries),
            goal == match_entries(input@.input, position@.offset, tracker@, entries.take(k as int)),
        decreases k,
    {
        k = k - 1;
        assert(entries.take(k + 1).drop_last() =~= entries.take(k as int));
        if !match_text(&mut position, spans[k].as_slice(), tracker) {
            return None;
        }
    }
    Some((position, input.span_to(&position)))
}

/// Matches the input against the top of the stack.
#[derive(Clone, Copy, Debug, PartialEq, Eq, Hash)]
pub struct PEEK;

impl TypedNode for PEEK {
    /// The match succeeds where the input ahead begins with the text of
    /// the top entry; the stack stays as it is. An empty stack is recorded
    /// as such; a text that does not match is recorded as an unmatched
    /// literal.
    open spec fn spec_parse(&self, ctx: Context, input: Seq<char>, st: State) -> Outcome {
        if st.stack.len() == 0 {
            st.fail(input, FailureView::EmptyStack, st.pos)
        } else {
            let out = st.match_text(input, st.stack.last().text());
            if out.matched() {
                out.with_node(NodeView::Peek(st.span_to(input, out.state.pos)))
            } else {
                out
            }
        }
    }

    proof fn lemma_outcome(&self, ctx: Context, input: Seq<char>, st: State)
    {
        if st.stack.len() == 0 {
            lemma_record(st.tracker, FailureView::EmptyStack, st.at(input));
        } else {
            lemma_match_text(input, st, st.stack.last().text());
        }
    }

    /// Matches the top of the stack at `input`.
    fn try_parse_with<'i>(
        &self,
        ctx: Context<'_>,
        input: Position<'i>,
        stack: &mut Stack<Span<'i>>,
        tracker: &mut Tracker<'i>,
    ) -> (res: Option<(Position<'i>, MatchNode<'i>)>)
        ensures
            *final(stack) == *old(stack),
    {
        match stack.peek() {
            Some(top) => {
                let mut end = input;
                if match_text(&mut end, top.as_slice(), tracker) {
                    Some((end, MatchNode::Peek(input.span_to(&end))))
                } else {
                    None
                }
            },
            None => {
                tracker.record_empty_stack(input);
                None
            },
        }
    }
}

/// Matches the input against the top of the stack and takes the top off.
#[derive(Clone, Copy, Debug, PartialEq, Eq, Hash)]
pub struct POP;

impl TypedNode for POP {
    /// The match succeeds where the input ahead begins with the text of
    /// the top entry, which is then taken off. Where the match fails the
    /// stack stays as it is.
    open spec fn spec_parse(&self, ctx: Context, input: Seq<char>, st: State) -> Outcome {
        if st.stack.len() == 0 {
            st.fail(input, FailureView::EmptyStack, st.pos)
        } else {
            let out = st.match_text(input, st.stack.last().text());
            if out.matched() {
                Outcome {
                    node: Some(NodeView::Pop(st.span_to(input, out.state.pos))),
                    state: State { stack: st.stack.drop_last(), ..out.state },
                }
            } else {
                out
            }
        }
    }

    proof fn lemma_outcome(&self, ctx: Context, input: Seq<char>, st: State)
    {
        if st.stack.len() == 0 {
            lemma_record(st.tracker, FailureView::EmptyStack, st.at(input));
        } else {
            lemma_match_text(input, st, st.stack.last().text());
        }
    }

    /// Matches and takes off the top of the stack at `input`.
    fn try_parse_with<'i>(
        &self,
        ctx: Context<'_>,
        input: Position<'i>,
        stack: &mut Stack<Span<'i>>,
        tracker: &mut Tracker<'i>,
    ) -> (res: Option<(Position<'i>, MatchNode<'i>)>)
    {
        let matched = match stack.peek() {
            Some(top) => {
                let mut end = input;
                if match_text(&mut end, top.as_slice(), tracker) {
                    Some(end)
                } else {
                    None
                }
            },
            None => {
                tracker.record_empty_stack(input);
                None
            },
        };
        match matched {
            Some(end) => {
                stack.pop();
                assert(span_views(stack@) =~= span_views(old(stack)@).drop_last());
                Some((end, MatchNode::Pop(input.span_to(&end))))
            },
            None => None,
        }
    }
}

/// Takes the top of the stack off without looking at the input.
#[derive(Clone, Copy, Debug, PartialEq, Eq, Hash)]
pub struct DROP;

impl TypedNode for DROP {
    /// The match succeeds where the stack has an entry, and takes the top
    /// one off. An empty stack is recorded as such.
    open spec fn spec_parse(&self, ctx: Context, input: Seq<char>, st: State) -> Outcome {
        if st.stack.len() == 0 {
            st.fail(input, FailureView::EmptyStack, st.pos)
        } else {
            Outcome {
                node: Some(NodeView::Drop),
                state: State { stack: st.stack.drop_last(), ..st },
            }
        }
    }

    proof fn lemma_outcome(&self, ctx: Context, input: Seq<char>, st: State)
    {
        lemma_record(st.tracker, FailureView::EmptyStack, st.at(input));
    }

    /// Takes the top of the stack off.
    fn try_parse_with<'i>(
        &self,
        ctx: Context<'_>,
        input: Position<'i>,
        stack: &mut Stack<Span<'i>>,
        tracker: &mut Tracker<'i>,
    ) -> (res: Option<(Position<'i>, MatchNode<'i>)>)
    {
        match stack.pop() {
            Some(_) => {
                assert(span_views(stack@) =~= span_views(old(stack)@).drop_last());
                Some((input, MatchNode::Drop))
            },
            None => {
                tracker.record_empty_stack(input);
                None
            },
        }
    }
}

/// Matches the input against the whole stack, the top entry first.
#[allow(non_camel_case_types)]
#[derive(Clone, Copy, Debug, PartialEq, Eq, Hash)]
pub struct PEEK_ALL;

impl TypedNode for PEEK_ALL {
    /// The match succeeds where the input ahead continues with the texts
    /// of all entries, the most recently pushed first; the stack stays as
    /// it is.
    open spec fn spec_parse(&self, ctx: Context, input: Seq<char>, st: State) -> Outcome {
        conclude(
            st,
            input,
            match_entries(input, st.pos, st.tracker, st.stack),
            |span: SpanView| NodeView::PeekAll(span),
        )
    }

    proof fn lemma_outcome(&self, ctx: Context, input: Seq<char>, st: State)
    {
        lemma_run(input, st.pos, st.tracker, st.stack);
    }

    /// Matches the whole stack at `input`.
    fn try_parse_with<'i>(
        &self,
        ctx: Context<'_>,
        input: Position<'i>,
        stack: &mut Stack<Span<'i>>,
        tracker: &mut Tracker<'i>,
    ) -> (res: Option<(Position<'i>, MatchNode<'i>)>)
        ensures
            *final(stack) == *old(stack),
    {
        match peek_spans(input, stack.as_slice(), tracker) {
            Some((end, span)) => Some((end, MatchNode::PeekAll(span))),
            None => None,
        }
    }
}

/// Matches the input against the whole stack and empties the stack.
#[allow(non_camel_case_types)]
#[derive(Clone, Copy, Debug, PartialEq, Eq, Hash)]
pub struct POP_ALL;

impl TypedNode for POP_ALL {
    /// The match succeeds where the input ahead continues with the texts
    /// of all entries, the most recently pushed first; the stack is then
    /// emptied. Where the match fails the stack stays as it is.
    open spec fn spec_parse(&self, ctx: Context, input: Seq<char>, st: State) -> Outcome {
        let out = conclude(
            st,
            input,
            match_entries(input, st.pos, st.tracker, st.stack),
            |span: SpanView| NodeView::PopAll(span),
        );
        if out.matched() {
            Outcome { state: State { stack: Seq::empty(), ..out.state }, ..out }
        } else {
            out
        }
    }

    proof fn lemma_outcome(&self, ctx: Context, input: Seq<char>, st: State)
    {
        lemma_run(input, st.pos, st.tracker, st.stack);
    }

    /// Matches the whole stack at `input` and empties it.
    fn try_parse_with<'i>(
        &self,
        ctx: Context<'_>,
        input: Position<'i>,
        stack: &mut Stack<Span<'i>>,
        tracker: &mut Tracker<'i>,
    ) -> (res: Option<(Position<'i>, MatchNode<'i>)>)
    {
        match peek_spans(input, stack.as_slice(), tracker) {
            Some((end, span)) => {
                stack.clear();
                assert(span_views(stack@) =~= Seq::<SpanView>::empty());
                Some((end, MatchNode::PopAll(span)))
            },
            None => None,
        }
    }
}

/// The outcome of matching the input against the part of the stack that
/// a signed range denotes, the uppermost entry of the part first.
pub open spec fn peek_slice(input: Seq<char>, st: State, start: int, end: Option<int>) -> Outcome {
    match resolve_range(start, end, st.stack.len()) {
        Some(bounds) => conclude(
            st,
            input,
            match_entries(input, st.pos, st.tracker, between(st.stack, bounds)),
            |span: SpanView| NodeView::PeekSlice(span),
        ),
        None => st.fail(input, FailureView::SliceOutOfBound(start, end), st.pos),
    }
}

/// Matching against a part of the stack is sound.
pub proof fn lemma_peek_slice(input: Seq<char>, st: State, start: int, end: Option<int>)
    requires
        st.pos <= input.len(),
    ensures
        sound(input, st, peek_slice(input, st, start, end)),
        peek_slice(input, st, start, end).state.stack == st.stack,
{
    match resolve_range(start, end, st.stack.len()) {
        Some(bounds) => {
            lemma_run(input, st.pos, st.tracker, between(st.stack, bounds));
        },
        None => {
            lemma_record(st.tracker, FailureView::SliceOutOfBound(start, end), st.at(input));
        },
    }
}

/// Matches the range `start..end` of the stack at `input`.
fn try_peek_slice<'i>(
    start: i32,
    end: Option<i32>,
    input: Position<'i>,
    stack: &mut Stack<Span<'i>>,
    tracker: &mut Tracker<'i>,
) -> (res: Option<(Position<'i>, MatchNode<'i>)>)
    ensures
        *final(stack) == *old(stack),
        agrees(
            res,
            input,
            *final(stack),
            *final(tracker),
            peek_slice(
                input@.input,
                state_of(input, *old(stack), *old(tracker)),
                start as int,
                signed(end),
            ),
        ),
{
    let entries = match stack_slice(input, start, end, stack, tracker) {
        Some(entries) => entries,
        None => {
            return None;
        },
    };
    proof {
        let bounds = resolve_range(start as int, signed(end), stack@.len())->0;
        assert(span_views(entries@) =~= between(span_views(stack@), bounds));
    }
    match peek_spans(input, entries, tracker) {
        Some((end, span)) => Some((end, MatchNode::PeekSlice(span))),
        None => None,
    }
}

/// Matches the input against a part of the stack that reaches to the
/// top.
#[derive(Clone, Copy, Debug, PartialEq, Eq, Hash)]
pub struct PeekSlice1 {
    /// Signed index of the lowest entry of the part.
    pub start: i32,
}

impl TypedNode for PeekSlice1 {
    /// The match succeeds where the range denotes a part of the stack and
    /// the input ahead continues with the texts of its entries, the
    /// uppermost first; the stack stays as it is. A range that denotes
    /// nothing is recorded as out of bound.
    open spec fn spec_parse(&self, ctx: Context, input: Seq<char>, st: State) -> Outcome {
        peek_slice(input, st, self.start as int, None)
    }

    proof fn lemma_outcome(&self, ctx: Context, input: Seq<char>, st: State)
    {
        lemma_peek_slice(input, st, self.start as int, None);
    }

    /// Matches the part of the stack at `input`.
    fn try_parse_with<'i>(
        &self,
        ctx: Context<'_>,
        input: Position<'i>,
        stack: &mut Stack<Span<'i>>,
        tracker: &mut Tracker<'i>,
    ) -> (res: Option<(Position<'i>, MatchNode<'i>)>)
        ensures
            *final(stack) == *old(stack),
    {
        try_peek_slice(self.start, None, input, stack, tracker)
    }
}

/// Matches the input against a part of the stack.
#[derive(Clone, Copy, Debug, PartialEq, Eq, Hash)]
pub struct PeekSlice2 {
    /// Signed index of the lowest entry of the part.
    pub start: i32,
    /// Signed index above the uppermost entry of the part.
    pub end: i32,
}

impl TypedNode for PeekSlice2 {
    /// The match succeeds where the range denotes a part of the stack and
    /// the input ahead continues with the texts of its entries, the
    /// uppermost first; the stack stays as it is. A range that denotes
    /// nothing is recorded as out of bound.
    open spec fn spec_parse(&self, ctx: Context, input: Seq<char>, st: State) -> Outcome {
        peek_slice(input, st, self.start as int, Some(self.end as int))
    }

    proof fn lemma_outcome(&self, ctx: Context, input: Seq<char>, st: State)
    {
        lemma_peek_slice(input, st, self.start as int, Some(self.end as int));
    }

    /// Matches the part of the stack at `input`.
    fn try_parse_with<'i>(
        &self,
        ctx: Context<'_>,
        input: Position<'i>,
        stack: &mut Stack<Span<'i>>,
        tracker: &mut Tracker<'i>,
    ) -> (res: Option<(Position<'i>, MatchNode<'i>)>)
        ensures
            *final(stack) == *old(stack),
    {
        try_peek_slice(self.start, Some(self.end), input, stack, tracker)
    }
}

} // verus!
