//! Matchers that are made of other matchers, and the tree that holds them
//! all.

use vstd::prelude::*;
use crate::backref::PeekSlice1;
use crate::backref::PeekSlice2;
use crate::backref::DROP;
use crate::backref::PEEK;
use crate::backref::PEEK_ALL;
use crate::backref::POP;
use crate::backref::POP_ALL;
use crate::error::FailureView;
use crate::error::RuleId;
use crate::node::span_views;
use crate::node::Choice;
use crate::node::MatchNode;
use crate::node::NodeView;
use crate::position::Position;
use crate::position::PositionView;
use crate::span::Span;
use crate::stack::truncated;
use crate::stack::Stack;
use crate::state::agrees;
use crate::state::sound;
use crate::state::state_of;
use crate::state::Outcome;
use crate::state::State;
use crate::terminal::AlwaysFail;
use crate::terminal::CharRange;
use crate::terminal::Empty;
use crate::terminal::Insens;
use crate::terminal::Skip;
use crate::terminal::SkipChar;
use crate::terminal::Str;
use crate::terminal::ANY;
use crate::terminal::EOI;
use crate::terminal::NEWLINE;
use crate::terminal::SOI;
use crate::tracker::lemma_record;
use crate::tracker::Tracker;
use crate::typed_node::NeverFailedParsableTypedNode;
use crate::typed_node::NeverFailedTypedNode;
use crate::typed_node::RuleStruct;
use crate::wrapper::BoundWrapper;
use crate::wrapper::RuleWrapper;
use crate::typed_node::ParsableTypedNode;
use crate::typed_node::TypedNode;

verus! {

/// What the node of a rule keeps of its match.
#[derive(Clone, Copy, Debug, PartialEq, Eq, Hash, Structural)]
pub enum Emission {
    /// The node keeps the match of the body and no span.
    Silent,
    /// The node keeps the span and drops the match of the body.
    Span,
    /// The node keeps both.
    InnerToken,
}

impl Emission {
    /// Whether the node keeps the match of the body.
    pub fn emit_content(&self) -> (res: bool)
        ensures
            res == self.spec_emit_content(),
    {
        match self {
            Emission::InnerToken | Emission::Silent => true,
            Emission::Span => false,
        }
    }

    /// Whether the node keeps the span.
    pub fn emit_span(&self) -> (res: bool)
        ensures
            res == self.spec_emit_span(),
    {
        match self {
            Emission::InnerToken | Emission::Span => true,
            Emission::Silent => false,
        }
    }

    /// Whether the node keeps the match of the body: every kind but
    /// [`Emission::Span`] does.
    pub open spec fn spec_emit_content(&self) -> bool {
        *self != Emission::Span
    }

    /// Whether the node keeps the span: every kind but
    /// [`Emission::Silent`] does.
    pub open spec fn spec_emit_span(&self) -> bool {
        *self != Emission::Silent
    }
}

/// A tree of matchers.
#[derive(Debug, PartialEq, Eq, Hash)]
pub enum Matcher {
    Str(Str),
    Insens(Insens),
    Skip(Skip),
    SkipChar(SkipChar),
    CharRange(CharRange),
    Any,
    Soi,
    Eoi,
    Newline,
    PeekAll,
    Peek,
    PeekSlice1(PeekSlice1),
    PeekSlice2(PeekSlice2),
    Pop,
    PopAll,
    Drop,
    Push(Push),
    Positive(Positive),
    Negative(Negative),
    Opt(Opt),
    Rep(Rep),
    Sequence(Sequence),
    Choice(Either),
    Restorable(Restorable),
    Silent(Silent),
    Ignored,
    AlwaysFail,
    Empty,
    Rule(Rule),
    AtomicRule(AtomicRule),
    NonAtomicRule(NonAtomicRule),
}

/// Matches its body and pushes the span of the match on the stack.
#[derive(Debug, PartialEq, Eq, Hash)]
pub struct Push {
    pub content: Box<Matcher>,
}

/// Looks ahead: holds where its body matches, and consumes nothing.
#[derive(Debug, PartialEq, Eq, Hash)]
pub struct Positive {
    pub content: Box<Matcher>,
}

/// Looks ahead: holds where its body does not match, and consumes nothing.
#[derive(Debug, PartialEq, Eq, Hash)]
pub struct Negative {
    pub content: Box<Matcher>,
}

/// Matches its body where it can, and nothing where it cannot.
#[derive(Debug, PartialEq, Eq, Hash)]
pub struct Opt {
    pub content: Box<Matcher>,
}

/// Matches its body as often as it can.
#[derive(Debug, PartialEq, Eq, Hash)]
pub struct Rep {
    pub content: Box<Matcher>,
}

/// Matches its members one after the other.
#[derive(Debug, PartialEq, Eq, Hash)]
pub struct Sequence {
    pub content: Vec<Matcher>,
}

/// Matches the first of two alternatives that matches.
#[derive(Debug, PartialEq, Eq, Hash)]
pub struct Either {
    pub first: Box<Matcher>,
    pub second: Box<Matcher>,
}

/// Matches its body, and puts the stack back where the body fails.
#[derive(Debug, PartialEq, Eq, Hash)]
pub struct Restorable {
    pub content: Box<Matcher>,
}

/// Matches its body, keeps only the span of the match, and keeps what
/// the body records of its failures to itself.
#[derive(Debug, PartialEq, Eq, Hash)]
pub struct Silent {
    pub content: Box<Matcher>,
}

/// A rule that leaves the skipping of insignificant text as its caller
/// has it.
#[derive(Debug, PartialEq, Eq, Hash)]
pub struct Rule {
    pub id: RuleId,
    pub emission: Emission,
    pub content: Box<Matcher>,
}

/// A rule inside which no insignificant text is skipped.
#[derive(Debug, PartialEq, Eq, Hash)]
pub struct AtomicRule {
    pub id: RuleId,
    pub emission: Emission,
    pub content: Box<Matcher>,
}

/// A rule inside which insignificant text is skipped, whatever its caller
/// does.
#[derive(Debug, PartialEq, Eq, Hash)]
pub struct NonAtomicRule {
    pub id: RuleId,
    pub emission: Emission,
    pub content: Box<Matcher>,
}

/// The two rules that say what insignificant text is.
#[derive(Debug, PartialEq, Eq, Hash)]
pub struct Ign {
    pub comment: Matcher,
    pub whitespace: Matcher,
}

/// What a matcher is told by the matchers around it.
#[derive(Clone, Copy, Debug, PartialEq, Eq, Hash)]
pub struct Context<'g> {
    /// The rules of insignificant text; none while one of those rules is
    /// itself being matched.
    pub ignored: Option<&'g Ign>,
    /// Whether the skipping of insignificant text is switched off.
    pub atomic: bool,
    /// How many matches a repetition may make.
    pub repeat_limit: usize,
}

impl<'g> Context<'g> {
    /// Two where insignificant text can still be skipped, zero where one
    /// of its rules is being matched. The skipping itself stands between
    /// the two.
    pub open spec fn level(self) -> nat {
        if self.ignored is Some {
            2
        } else {
            0
        }
    }

    /// The same context with the skipping switched on or off.
    pub open spec fn spec_with_atomic(self, atomic: bool) -> Context<'g> {
        Context { atomic, ..self }
    }

    /// The context in which a rule of insignificant text is matched:
    /// nothing is skipped in it, whatever the rule says.
    pub open spec fn spec_within_ignored(self) -> Context<'g> {
        Context { ignored: None, atomic: true, repeat_limit: self.repeat_limit }
    }

    /// The same context with the skipping switched on or off.
    pub fn with_atomic(self, atomic: bool) -> (res: Context<'g>)
        ensures
            res == self.spec_with_atomic(atomic),
    {
        Context { atomic, ..self }
    }

    /// The context in which a rule of insignificant text is matched.
    pub fn within_ignored(self) -> (res: Context<'g>)
        ensures
            res == self.spec_within_ignored(),
    {
        Context { ignored: None, atomic: true, repeat_limit: self.repeat_limit }
    }
}

/// The state after insignificant text was skipped from `st`, as far as
/// `ctx` lets it be skipped.
pub open spec fn spec_ignore(ctx: Context, input: Seq<char>, st: State) -> State {
    match ctx.ignored {
        Some(ign) => ign.spec_parse(ctx, input, st).state,
        None => st,
    }
}

/// The outcome of a rule with the identity `id` whose body is `content`
/// and is matched in `ctx`: failures inside are nested in the rule, and
/// the node keeps what `emission` says.
pub open spec fn spec_rule(
    id: RuleId,
    emission: Emission,
    content: Matcher,
    ctx: Context,
    input: Seq<char>,
    st: State,
) -> Outcome
    decreases ctx.level(), content, 1nat,
{
    let out = content.spec_parse(
        ctx,
        input,
        State { tracker: st.tracker.enter_rule(id), ..st },
    );
    let state = State { tracker: out.state.tracker.exit_rule(), ..out.state };
    match out.node {
        Some(node) => Outcome {
            node: Some(
                NodeView::Rule {
                    id,
                    span: if emission.spec_emit_span() {
                        Some(st.span_to(input, out.state.pos))
                    } else {
                        None
                    },
                    content: if emission.spec_emit_content() {
                        Some(Box::new(node))
                    } else {
                        None
                    },
                },
            ),
            state,
        },
        None => Outcome { node: None, state },
    }
}

/// A rule is sound where its body is.
pub proof fn lemma_rule(
    id: RuleId,
    emission: Emission,
    content: Matcher,
    ctx: Context,
    input: Seq<char>,
    st: State,
)
    requires
        st.pos <= input.len(),
    ensures
        sound(input, st, spec_rule(id, emission, content, ctx, input, st)),
    decreases ctx.level(), content, 1nat,
{
    let inner = State { tracker: st.tracker.enter_rule(id), ..st };
    content.lemma_outcome(ctx, input, inner);
    assert(st.tracker.rules.push(id).drop_last() =~= st.tracker.rules);
}

/// Number of characters between the cursor and the end of the input.
pub open spec fn remaining(input: Seq<char>, st: State) -> nat {
    if st.pos <= input.len() {
        (input.len() - st.pos) as nat
    } else {
        0
    }
}

impl Ign {
    /// The state after rounds of attempts were made for as long as a round
    /// moved the cursor forward. A round is one attempt at white space and
    /// one at a comment, each matched with the skipping switched off.
    pub open spec fn spec_skip(&self, ctx: Context, input: Seq<char>, st: State) -> State
        decreases 1nat, self, 1 + remaining(input, st),
    {
        let first = self.whitespace.spec_parse(ctx.spec_within_ignored(), input, st).state;
        let next = self.comment.spec_parse(ctx.spec_within_ignored(), input, first).state;
        if st.pos < next.pos <= input.len() {
            self.spec_skip(ctx, input, next)
        } else {
            next
        }
    }

}

impl Ign {
    /// Skipping insignificant text is sound, and always succeeds.
    pub proof fn lemma_skip(&self, ctx: Context, input: Seq<char>, st: State)
        requires
            st.pos <= input.len(),
        ensures
            st.pos <= self.spec_skip(ctx, input, st).pos <= input.len(),
            st.tracker.precedes(self.spec_skip(ctx, input, st).tracker),
        decreases 1nat, self, 1 + remaining(input, st),
    {
        self.whitespace.lemma_outcome(ctx.spec_within_ignored(), input, st);
        let first = self.whitespace.spec_parse(ctx.spec_within_ignored(), input, st).state;
        self.comment.lemma_outcome(ctx.spec_within_ignored(), input, first);
        let next = self.comment.spec_parse(ctx.spec_within_ignored(), input, first).state;
        if st.pos < next.pos <= input.len() {
            self.lemma_skip(ctx, input, next);
        }
    }
}

impl TypedNode for Ign {
    /// Insignificant text is skipped; the node holds the span of what was
    /// skipped. Nothing is skipped where the skipping is switched off.
    open spec fn spec_parse(&self, ctx: Context, input: Seq<char>, st: State) -> Outcome
        decreases 1nat, self, 2 + input.len(),
    {
        let end = if ctx.atomic {
            st
        } else {
            self.spec_skip(ctx, input, st)
        };
        Outcome { node: Some(NodeView::Skipped(st.span_to(input, end.pos))), state: end }
    }

    proof fn lemma_outcome(&self, ctx: Context, input: Seq<char>, st: State)
        decreases 1nat, self, 2 + input.len(),
    {
        if !ctx.atomic {
            self.lemma_skip(ctx, input, st);
        }
    }

    /// Skips insignificant text from `input` on.
    fn try_parse_with<'i>(
        &self,
        ctx: Context<'_>,
        input: Position<'i>,
        stack: &mut Stack<Span<'i>>,
        tracker: &mut Tracker<'i>,
    ) -> (res: Option<(Position<'i>, MatchNode<'i>)>)
        ensures
            res is Some,
        decreases 1nat, self, 2 + input@.input.len(),
    {
        if ctx.atomic {
            return Some((input, MatchNode::Skipped(input.span_to(&input))));
        }
        let inner = ctx.within_ignored();
        let ghost goal = self.spec_skip(ctx, input@.input, state_of(input, *stack, *tracker));
        let mut position = input;
        loop
            invariant
                !ctx.atomic,
                inner == ctx.spec_within_ignored(),
                goal == self.spec_skip(
                    ctx,
                    input@.input,
                    state_of(input, *old(stack), *old(tracker)),
                ),
                position@.input == input@.input,
                input@.offset <= position@.offset,
                stack.markers() == old(stack).markers(),
                goal == self.spec_skip(ctx, input@.input, state_of(position, *stack, *tracker)),
            decreases input@.input.len() - position@.offset,
        {
            let start = position;
            match self.whitespace.try_parse_with(inner, position, stack, tracker) {
                Some((next, _)) => {
                    position = next;
                },
                None => {},
            }
            match self.comment.try_parse_with(inner, position, stack, tracker) {
                Some((next, _)) => {
                    position = next;
                },
                None => {},
            }
            if position.pos() <= start.pos() {
                return Some((position, MatchNode::Skipped(input.span_to(&position))));
            }
        }
    }
}

impl NeverFailedTypedNode for Ign {
    proof fn lemma_never_fails(&self, ctx: Context, input: Seq<char>, st: State) {
    }

    /// Skips insignificant text from `input` on and returns the cursor
    /// behind it.
    fn parse_with<'i>(
        &self,
        ctx: Context<'_>,
        input: Position<'i>,
        stack: &mut Stack<Span<'i>>,
        tracker: &mut Tracker<'i>,
    ) -> (res: (Position<'i>, MatchNode<'i>))
        decreases 1nat, self, 3 + input@.input.len(),
    {
        match self.try_parse_with(ctx, input, stack, tracker) {
            Some(res) => res,
            None => (input, MatchNode::Skipped(input.span_to(&input))),
        }
    }
}

impl TypedNode for Push {
    /// The body is matched; where it matches, the span it covers is pushed
    /// on the stack.
    open spec fn spec_parse(&self, ctx: Context, input: Seq<char>, st: State) -> Outcome
        decreases ctx.level(), self, 0nat,
    {
        let out = self.content.spec_parse(ctx, input, st);
        match out.node {
            Some(node) => Outcome {
                node: Some(NodeView::Push(Box::new(node))),
                state: State {
                    stack: out.state.stack.push(st.span_to(input, out.state.pos)),
                    ..out.state
                },
            },
            None => out,
        }
    }

    proof fn lemma_outcome(&self, ctx: Context, input: Seq<char>, st: State)
        decreases ctx.level(), self, 0nat,
    {
        self.content.lemma_outcome(ctx, input, st);
    }

    /// Matches the body at `input` and pushes the span of the match.
    fn try_parse_with<'i>(
        &self,
        ctx: Context<'_>,
        input: Position<'i>,
        stack: &mut Stack<Span<'i>>,
        tracker: &mut Tracker<'i>,
    ) -> (res: Option<(Position<'i>, MatchNode<'i>)>)
        decreases ctx.level(), self, 0nat,
    {
        match self.content.try_parse_with(ctx, input, stack, tracker) {
            Some((end, node)) => {
                let ghost before = span_views(stack@);
                let span = input.span_to(&end);
                stack.push(span);
                assert(span_views(stack@) =~= before.push(span@));
                Some((end, MatchNode::Push(Box::new(node))))
            },
            None => None,
        }
    }
}


impl TypedNode for Positive {
    /// The body is matched as a positive lookahead. Whatever comes of it,
    /// the stack is cut back to the length it had and the cursor stays.
    /// Where the body fails, a lookahead that did not hold is recorded at
    /// the cursor.
    open spec fn spec_parse(&self, ctx: Context, input: Seq<char>, st: State) -> Outcome
        decreases ctx.level(), self, 0nat,
    {
        let out = self.content.spec_parse(
            ctx,
            input,
            State { tracker: st.tracker.with_mode(Some(true)), ..st },
        );
        let state = State {
            pos: st.pos,
            stack: truncated(out.state.stack, st.stack.len()),
            tracker: out.state.tracker.with_mode(st.tracker.mode),
        };
        match out.node {
            Some(node) => Outcome { node: Some(NodeView::Positive(Box::new(node))), state },
            None => state.fail(input, FailureView::PredicateFailed { positive: true }, st.pos),
        }
    }

    proof fn lemma_outcome(&self, ctx: Context, input: Seq<char>, st: State)
        decreases ctx.level(), self, 0nat,
    {
        let inner = State { tracker: st.tracker.with_mode(Some(true)), ..st };
        self.content.lemma_outcome(ctx, input, inner);
        let out = self.content.spec_parse(ctx, input, inner);
        lemma_record(
            out.state.tracker.with_mode(st.tracker.mode),
            FailureView::PredicateFailed { positive: true },
            st.at(input),
        );
    }

    /// Looks ahead at `input` for a match of the body.
    fn try_parse_with<'i>(
        &self,
        ctx: Context<'_>,
        input: Position<'i>,
        stack: &mut Stack<Span<'i>>,
        tracker: &mut Tracker<'i>,
    ) -> (res: Option<(Position<'i>, MatchNode<'i>)>)
        decreases ctx.level(), self, 0nat,
    {
        stack.snapshot();
        let saved = tracker.set_mode(Some(true));
        let res = self.content.try_parse_with(ctx, input, stack, tracker);
        tracker.set_mode(saved);
        let ghost inner = span_views(stack@);
        stack.restore();
        assert(span_views(stack@) =~= truncated(inner, old(stack)@.len()));
        match res {
            Some((_, node)) => Some((input, MatchNode::Positive(Box::new(node)))),
            None => {
                tracker.record_predicate(true, input);
                None
            },
        }
    }
}


impl TypedNode for Negative {
    /// The body is matched as a negative lookahead. Whatever comes of it,
    /// the stack is cut back to the length it had and the cursor stays.
    /// Where the body matches, a lookahead that did not hold is recorded
    /// at the cursor.
    open spec fn spec_parse(&self, ctx: Context, input: Seq<char>, st: State) -> Outcome
        decreases ctx.level(), self, 0nat,
    {
        let out = self.content.spec_parse(
            ctx,
            input,
            State { tracker: st.tracker.with_mode(Some(false)), ..st },
        );
        let state = State {
            pos: st.pos,
            stack: truncated(out.state.stack, st.stack.len()),
            tracker: out.state.tracker.with_mode(st.tracker.mode),
        };
        match out.node {
            Some(_) => state.fail(input, FailureView::PredicateFailed { positive: false }, st.pos),
            None => Outcome { node: Some(NodeView::Negative), state },
        }
    }

    proof fn lemma_outcome(&self, ctx: Context, input: Seq<char>, st: State)
        decreases ctx.level(), self, 0nat,
    {
        let inner = State { tracker: st.tracker.with_mode(Some(false)), ..st };
        self.content.lemma_outcome(ctx, input, inner);
        let out = self.content.spec_parse(ctx, input, inner);
        lemma_record(
            out.state.tracker.with_mode(st.tracker.mode),
            FailureView::PredicateFailed { positive: false },
            st.at(input),
        );
    }

    /// Looks ahead at `input` for the absence of a match of the body.
    fn try_parse_with<'i>(
        &self,
        ctx: Context<'_>,
        input: Position<'i>,
        stack: &mut Stack<Span<'i>>,
        tracker: &mut Tracker<'i>,
    ) -> (res: Option<(Position<'i>, MatchNode<'i>)>)
        decreases ctx.level(), self, 0nat,
    {
        stack.snapshot();
        let saved = tracker.set_mode(Some(false));
        let res = self.content.try_parse_with(ctx, input, stack, tracker);
        tracker.set_mode(saved);
        let ghost inner = span_views(stack@);
        stack.restore();
        assert(span_views(stack@) =~= truncated(inner, old(stack)@.len()));
        match res {
            Some(_) => {
                tracker.record_predicate(false, input);
                None
            },
            None => Some((input, MatchNode::Negative)),
        }
    }
}


impl TypedNode for Opt {
    /// The body is matched. Where it fails, the stack is cut back to the
    /// length it had, and the match succeeds with nothing.
    open spec fn spec_parse(&self, ctx: Context, input: Seq<char>, st: State) -> Outcome
        decreases ctx.level(), self, 0nat,
    {
        let out = self.content.spec_parse(ctx, input, st);
        match out.node {
            Some(node) => out.with_node(NodeView::Opt(Some(Box::new(node)))),
            None => Outcome {
                node: Some(NodeView::Opt(None)),
                state: State {
                    pos: st.pos,
                    stack: truncated(out.state.stack, st.stack.len()),
                    tracker: out.state.tracker,
                },
            },
        }
    }

    proof fn lemma_outcome(&self, ctx: Context, input: Seq<char>, st: State)
        decreases ctx.level(), self, 0nat,
    {
        self.content.lemma_outcome(ctx, input, st);
    }

    /// Matches the body at `input` where it can.
    fn try_parse_with<'i>(
        &self,
        ctx: Context<'_>,
        input: Position<'i>,
        stack: &mut Stack<Span<'i>>,
        tracker: &mut Tracker<'i>,
    ) -> (res: Option<(Position<'i>, MatchNode<'i>)>)
        ensures
            res is Some,
        decreases ctx.level(), self, 0nat,
    {
        stack.snapshot();
        match self.content.try_parse_with(ctx, input, stack, tracker) {
            Some((end, node)) => {
                stack.clear_snapshot();
                Some((end, MatchNode::Opt(Some(Box::new(node)))))
            },
            None => {
                let ghost inner = span_views(stack@);
                stack.restore();
                assert(span_views(stack@) =~= truncated(inner, old(stack)@.len()));
                Some((input, MatchNode::Opt(None)))
            },
        }
    }
}


impl TypedNode for Silent {
    /// The body is matched against a record of its own. Where it matches,
    /// the node holds the span of the match, and the record of failures
    /// stays as it was. Where it fails, one failure is recorded, as of a
    /// lookahead, at the furthest offset that the body reached.
    open spec fn spec_parse(&self, ctx: Context, input: Seq<char>, st: State) -> Outcome
        decreases ctx.level(), self, 0nat,
    {
        let out = self.content.spec_parse(
            ctx,
            input,
            State { tracker: st.tracker.fork(st.at(input)), ..st },
        );
        match out.node {
            Some(_) => Outcome {
                node: Some(NodeView::Silent(st.span_to(input, out.state.pos))),
                state: State { tracker: st.tracker, ..out.state },
            },
            None => Outcome {
                node: None,
                state: State {
                    tracker: st.tracker.record(
                        FailureView::PredicateFailed { positive: true },
                        PositionView {
                            input: out.state.tracker.input,
                            offset: out.state.tracker.furthest,
                        },
                    ),
                    ..out.state
                },
            },
        }
    }

    proof fn lemma_outcome(&self, ctx: Context, input: Seq<char>, st: State)
        decreases ctx.level(), self, 0nat,
    {
        let quiet = State { tracker: st.tracker.fork(st.at(input)), ..st };
        self.content.lemma_outcome(ctx, input, quiet);
        let out = self.content.spec_parse(ctx, input, quiet);
        lemma_record(
            st.tracker,
            FailureView::PredicateFailed { positive: true },
            PositionView { input: out.state.tracker.input, offset: out.state.tracker.furthest },
        );
    }

    /// Matches the body at `input` and keeps the span of the match.
    fn try_parse_with<'i>(
        &self,
        ctx: Context<'_>,
        input: Position<'i>,
        stack: &mut Stack<Span<'i>>,
        tracker: &mut Tracker<'i>,
    ) -> (res: Option<(Position<'i>, MatchNode<'i>)>)
        decreases ctx.level(), self, 0nat,
    {
        let mut quiet = tracker.fork(input);
        match self.content.try_parse_with(ctx, input, stack, &mut quiet) {
            Some((end, _)) => Some((end, MatchNode::Silent(input.span_to(&end)))),
            None => {
                tracker.record_predicate(true, quiet.position());
                None
            },
        }
    }
}

impl TypedNode for Restorable {
    /// The body is matched. Where it fails, the stack is cut back to the
    /// length it had.
    open spec fn spec_parse(&self, ctx: Context, input: Seq<char>, st: State) -> Outcome
        decreases ctx.level(), self, 0nat,
    {
        let out = self.content.spec_parse(ctx, input, st);
        match out.node {
            Some(node) => out.with_node(NodeView::Restorable(Box::new(node))),
            None => Outcome {
                node: None,
                state: State {
                    pos: st.pos,
                    stack: truncated(out.state.stack, st.stack.len()),
                    tracker: out.state.tracker,
                },
            },
        }
    }

    proof fn lemma_outcome(&self, ctx: Context, input: Seq<char>, st: State)
        decreases ctx.level(), self, 0nat,
    {
        self.content.lemma_outcome(ctx, input, st);
    }

    /// Matches the body at `input` and puts the stack back where the body
    /// fails.
    fn try_parse_with<'i>(
        &self,
        ctx: Context<'_>,
        input: Position<'i>,
        stack: &mut Stack<Span<'i>>,
        tracker: &mut Tracker<'i>,
    ) -> (res: Option<(Position<'i>, MatchNode<'i>)>)
        decreases ctx.level(), self, 0nat,
    {
        stack.snapshot();
        match self.content.try_parse_with(ctx, input, stack, tracker) {
            Some((end, node)) => {
                stack.clear_snapshot();
                Some((end, MatchNode::Restorable(Box::new(node))))
            },
            None => {
                let ghost inner = span_views(stack@);
                stack.restore();
                assert(span_views(stack@) =~= truncated(inner, old(stack)@.len()));
                None
            },
        }
    }
}


impl Rep {
    /// The repetition from its match number `count` on, `nodes` being the
    /// matches made so far.
    ///
    /// Before every match but the first, insignificant text is skipped.
    /// A match of the body that fails ends the repetition, which succeeds
    /// with the matches made. A match that succeeds beyond the limit makes
    /// the repetition fail.
    pub open spec fn spec_from(
        &self,
        ctx: Context,
        input: Seq<char>,
        st: State,
        count: nat,
        nodes: Seq<NodeView>,
    ) -> Outcome
        decreases ctx.level(), self, 1 + ctx.repeat_limit - count,
    {
        let ready = match ctx.ignored {
            Some(ign) => if count > 0 {
                ign.spec_parse(ctx, input, st).state
            } else {
                st
            },
            None => st,
        };
        let out = self.content.spec_parse(ctx, input, ready);
        match out.node {
            Some(node) => if count < ctx.repeat_limit {
                self.spec_from(ctx, input, out.state, count + 1, nodes.push(node))
            } else {
                out.state.fail(input, FailureView::RepeatLimitExceeded, out.state.pos)
            },
            None => Outcome { node: Some(NodeView::Rep(nodes)), state: out.state },
        }
    }
}

impl Rep {
    /// A repetition that goes on from a state is sound with respect to
    /// that state, but for the cursor of a failure, which lies where the
    /// limit was exceeded.
    pub proof fn lemma_from(
        &self,
        ctx: Context,
        input: Seq<char>,
        st: State,
        count: nat,
        nodes: Seq<NodeView>,
    )
        requires
            st.pos <= input.len(),
        ensures
            st.pos <= self.spec_from(ctx, input, st, count, nodes).state.pos <= input.len(),
            st.tracker.precedes(self.spec_from(ctx, input, st, count, nodes).state.tracker),
        decreases ctx.level(), self, 1 + ctx.repeat_limit - count,
    {
        let ready = match ctx.ignored {
            Some(ign) => if count > 0 {
                ign.spec_parse(ctx, input, st).state
            } else {
                st
            },
            None => st,
        };
        match ctx.ignored {
            Some(ign) => {
                if count > 0 {
                    ign.lemma_outcome(ctx, input, st);
                }
            },
            None => {},
        }
        self.content.lemma_outcome(ctx, input, ready);
        let out = self.content.spec_parse(ctx, input, ready);
        match out.node {
            Some(node) => {
                if count < ctx.repeat_limit {
                    self.lemma_from(ctx, input, out.state, count + 1, nodes.push(node));
                } else {
                    lemma_record(
                        out.state.tracker,
                        FailureView::RepeatLimitExceeded,
                        out.state.at(input),
                    );
                }
            },
            None => {},
        }
    }
}

impl TypedNode for Rep {
    /// The body is matched as often as it matches, at most as often as
    /// the limit of the context says.
    open spec fn spec_parse(&self, ctx: Context, input: Seq<char>, st: State) -> Outcome
        decreases ctx.level(), self, 2 + ctx.repeat_limit,
    {
        let out = self.spec_from(ctx, input, st, 0, Seq::empty());
        if out.matched() {
            out
        } else {
            Outcome { node: None, state: out.back_to(st.pos) }
        }
    }

    proof fn lemma_outcome(&self, ctx: Context, input: Seq<char>, st: State)
        decreases ctx.level(), self, 2 + ctx.repeat_limit,
    {
        self.lemma_from(ctx, input, st, 0, Seq::empty());
    }

    /// Matches the body at `input` as often as it matches.
    fn try_parse_with<'i>(
        &self,
        ctx: Context<'_>,
        input: Position<'i>,
        stack: &mut Stack<Span<'i>>,
        tracker: &mut Tracker<'i>,
    ) -> (res: Option<(Position<'i>, MatchNode<'i>)>)
        decreases ctx.level(), self, 2 + ctx.repeat_limit,
    {
        let ghost goal = self.spec_from(
            ctx,
            input@.input,
            state_of(input, *stack, *tracker),
            0,
            Seq::empty(),
        );
        let mut nodes: Vec<MatchNode<'i>> = Vec::new();
        let mut position = input;
        let mut count: usize = 0;
        loop
            invariant
                count <= ctx.repeat_limit,
                goal == self.spec_from(
                    ctx,
                    input@.input,
                    state_of(input, *old(stack), *old(tracker)),
                    0,
                    Seq::empty(),
                ),
                position@.input == input@.input,
                input@.offset <= position@.offset,
                stack.markers() == old(stack).markers(),
                goal == self.spec_from(
                    ctx,
                    input@.input,
                    state_of(position, *stack, *tracker),
                    count as nat,
                    MatchNode::models(nodes@),
                ),
            decreases ctx.repeat_limit - count,
        {
            if count > 0 {
                match ctx.ignored {
                    Some(ign) => {
                        position = ign.parse_with(ctx, position, stack, tracker).0;
                    },
                    None => {},
                }
            }
            match self.content.try_parse_with(ctx, position, stack, tracker) {
                Some((next, node)) => {
                    if count < ctx.repeat_limit {
                        assert(nodes@.push(node).drop_last() =~= nodes@);
                        nodes.push(node);
                        position = next;
                        count = count + 1;
                    } else {
                        tracker.record_repeat_limit(next);
                        return None;
                    }
                },
                None => {
                    return Some((position, MatchNode::Rep(nodes)));
                },
            }
        }
    }
}


impl Sequence {
    /// The sequence from its member number `next` on, `nodes` being the
    /// matches of the members before.
    ///
    /// Before every member but the first, insignificant text is skipped.
    /// A member that fails makes the sequence fail.
    pub open spec fn spec_from(
        &self,
        ctx: Context,
        input: Seq<char>,
        st: State,
        next: nat,
        nodes: Seq<NodeView>,
    ) -> Outcome
        decreases ctx.level(), self, self.content@.len() - next,
    {
        if next >= self.content@.len() {
            Outcome { node: Some(NodeView::Sequence(nodes)), state: st }
        } else {
            let ready = match ctx.ignored {
                Some(ign) => if next > 0 {
                    ign.spec_parse(ctx, input, st).state
                } else {
                    st
                },
                None => st,
            };
            let out = self.content@[next as int].spec_parse(ctx, input, ready);
            match out.node {
                Some(node) => self.spec_from(ctx, input, out.state, next + 1, nodes.push(node)),
                None => out,
            }
        }
    }
}

impl Sequence {
    /// A sequence that goes on from a state is sound with respect to that
    /// state, but for the cursor of a failure, which lies where the member
    /// that failed was tried.
    pub proof fn lemma_from(
        &self,
        ctx: Context,
        input: Seq<char>,
        st: State,
        next: nat,
        nodes: Seq<NodeView>,
    )
        requires
            st.pos <= input.len(),
        ensures
            st.pos <= self.spec_from(ctx, input, st, next, nodes).state.pos <= input.len(),
            st.tracker.precedes(self.spec_from(ctx, input, st, next, nodes).state.tracker),
        decreases ctx.level(), self, self.content@.len() - next,
    {
        if next < self.content@.len() {
            let ready = match ctx.ignored {
                Some(ign) => if next > 0 {
                    ign.spec_parse(ctx, input, st).state
                } else {
                    st
                },
                None => st,
            };
            match ctx.ignored {
                Some(ign) => {
                    if next > 0 {
                        ign.lemma_outcome(ctx, input, st);
                    }
                },
                None => {},
            }
            self.content@[next as int].lemma_outcome(ctx, input, ready);
            let out = self.content@[next as int].spec_parse(ctx, input, ready);
            match out.node {
                Some(node) => {
                    self.lemma_from(ctx, input, out.state, next + 1, nodes.push(node));
                },
                None => {},
            }
        }
    }
}

impl TypedNode for Sequence {
    /// The members are matched one after the other. What a member did to
    /// the stack before a later member failed stays done.
    open spec fn spec_parse(&self, ctx: Context, input: Seq<char>, st: State) -> Outcome
        decreases ctx.level(), self, 1 + self.content@.len(),
    {
        let out = self.spec_from(ctx, input, st, 0, Seq::empty());
        if out.matched() {
            out
        } else {
            Outcome { node: None, state: out.back_to(st.pos) }
        }
    }

    proof fn lemma_outcome(&self, ctx: Context, input: Seq<char>, st: State)
        decreases ctx.level(), self, 1 + self.content@.len(),
    {
        self.lemma_from(ctx, input, st, 0, Seq::empty());
    }

    /// Matches the members one after the other at `input`.
    fn try_parse_with<'i>(
        &self,
        ctx: Context<'_>,
        input: Position<'i>,
        stack: &mut Stack<Span<'i>>,
        tracker: &mut Tracker<'i>,
    ) -> (res: Option<(Position<'i>, MatchNode<'i>)>)
        decreases ctx.level(), self, 1 + self.content@.len(),
    {
        let ghost goal = self.spec_from(
            ctx,
            input@.input,
            state_of(input, *stack, *tracker),
            0,
            Seq::empty(),
        );
        let mut nodes: Vec<MatchNode<'i>> = Vec::new();
        let mut position = input;
        let mut next: usize = 0;
        while next < self.content.len()
            invariant
                next <= self.content@.len(),
                goal == self.spec_from(
                    ctx,
                    input@.input,
                    state_of(input, *old(stack), *old(tracker)),
                    0,
                    Seq::empty(),
                ),
                position@.input == input@.input,
                input@.offset <= position@.offset,
                stack.markers() == old(stack).markers(),
                goal == self.spec_from(
                    ctx,
                    input@.input,
                    state_of(position, *stack, *tracker),
                    next as nat,
                    MatchNode::models(nodes@),
                ),
            decreases self.content@.len() - next,
        {
            if next > 0 {
                match ctx.ignored {
                    Some(ign) => {
                        position = ign.parse_with(ctx, position, stack, tracker).0;
                    },
                    None => {},
                }
            }
            match self.content[next].try_parse_with(ctx, position, stack, tracker) {
                Some((end, node)) => {
                    assert(nodes@.push(node).drop_last() =~= nodes@);
                    nodes.push(node);
                    position = end;
                },
                None => {
                    return None;
                },
            }
            next = next + 1;
        }
        Some((position, MatchNode::Sequence(nodes)))
    }
}


impl TypedNode for Rule {
    /// The body is matched as the rule says, with the skipping of
    /// insignificant text as the caller has it.
    open spec fn spec_parse(&self, ctx: Context, input: Seq<char>, st: State) -> Outcome
        decreases ctx.level(), self, 0nat,
    {
        spec_rule(self.id, self.emission, *self.content, ctx, input, st)
    }

    proof fn lemma_outcome(&self, ctx: Context, input: Seq<char>, st: State)
        decreases ctx.level(), self, 0nat,
    {
        lemma_rule(self.id, self.emission, *self.content, ctx, input, st);
    }

    /// Matches the rule at `input`.
    fn try_parse_with<'i>(
        &self,
        ctx: Context<'_>,
        input: Position<'i>,
        stack: &mut Stack<Span<'i>>,
        tracker: &mut Tracker<'i>,
    ) -> (res: Option<(Position<'i>, MatchNode<'i>)>)
        decreases ctx.level(), self, 0nat,
    {
        parse_rule(self.id, self.emission, &self.content, ctx, input, stack, tracker)
    }
}


impl TypedNode for AtomicRule {
    /// The body is matched as the rule says, with the skipping of
    /// insignificant text switched off.
    open spec fn spec_parse(&self, ctx: Context, input: Seq<char>, st: State) -> Outcome
        decreases ctx.level(), self, 0nat,
    {
        spec_rule(self.id, self.emission, *self.content, ctx.spec_with_atomic(true), input, st)
    }

    proof fn lemma_outcome(&self, ctx: Context, input: Seq<char>, st: State)
        decreases ctx.level(), self, 0nat,
    {
        lemma_rule(self.id, self.emission, *self.content, ctx.spec_with_atomic(true), input, st);
    }

    /// Matches the rule at `input`.
    fn try_parse_with<'i>(
        &self,
        ctx: Context<'_>,
        input: Position<'i>,
        stack: &mut Stack<Span<'i>>,
        tracker: &mut Tracker<'i>,
    ) -> (res: Option<(Position<'i>, MatchNode<'i>)>)
        decreases ctx.level(), self, 0nat,
    {
        parse_rule(
            self.id,
            self.emission,
            &self.content,
            ctx.with_atomic(true),
            input,
            stack,
            tracker,
        )
    }
}


impl TypedNode for NonAtomicRule {
    /// The body is matched as the rule says, with the skipping of
    /// insignificant text switched on.
    open spec fn spec_parse(&self, ctx: Context, input: Seq<char>, st: State) -> Outcome
        decreases ctx.level(), self, 0nat,
    {
        spec_rule(self.id, self.emission, *self.content, ctx.spec_with_atomic(false), input, st)
    }

    proof fn lemma_outcome(&self, ctx: Context, input: Seq<char>, st: State)
        decreases ctx.level(), self, 0nat,
    {
        lemma_rule(self.id, self.emission, *self.content, ctx.spec_with_atomic(false), input, st);
    }

    /// Matches the rule at `input`.
    fn try_parse_with<'i>(
        &self,
        ctx: Context<'_>,
        input: Position<'i>,
        stack: &mut Stack<Span<'i>>,
        tracker: &mut Tracker<'i>,
    ) -> (res: Option<(Position<'i>, MatchNode<'i>)>)
        decreases ctx.level(), self, 0nat,
    {
        parse_rule(
            self.id,
            self.emission,
            &self.content,
            ctx.with_atomic(false),
            input,
            stack,
            tracker,
        )
    }
}


impl TypedNode for Either {
    /// The first alternative is matched; where it fails, the second is
    /// matched from where the first was tried. What the first did to the
    /// stack before it failed stays done.
    open spec fn spec_parse(&self, ctx: Context, input: Seq<char>, st: State) -> Outcome
        decreases ctx.level(), self, 0nat,
    {
        let one = self.first.spec_parse(ctx, input, st);
        match one.node {
            Some(node) => one.with_node(NodeView::Choice(Choice::First(Box::new(node)))),
            None => {
                let two = self.second.spec_parse(ctx, input, one.state);
                match two.node {
                    Some(node) => two.with_node(NodeView::Choice(Choice::Second(Box::new(node)))),
                    None => two,
                }
            },
        }
    }

    proof fn lemma_outcome(&self, ctx: Context, input: Seq<char>, st: State)
        decreases ctx.level(), self, 0nat,
    {
        self.first.lemma_outcome(ctx, input, st);
        let one = self.first.spec_parse(ctx, input, st);
        if !one.matched() {
            self.second.lemma_outcome(ctx, input, one.state);
        }
    }

    /// Matches the first alternative at `input`, and the second where the
    /// first fails.
    fn try_parse_with<'i>(
        &self,
        ctx: Context<'_>,
        input: Position<'i>,
        stack: &mut Stack<Span<'i>>,
        tracker: &mut Tracker<'i>,
    ) -> (res: Option<(Position<'i>, MatchNode<'i>)>)
        decreases ctx.level(), self, 0nat,
    {
        match self.first.try_parse_with(ctx, input, stack, tracker) {
            Some((end, node)) => Some((end, MatchNode::Choice(Choice::First(Box::new(node))))),
            None => match self.second.try_parse_with(ctx, input, stack, tracker) {
                Some((end, node)) => Some((end, MatchNode::Choice(Choice::Second(Box::new(node))))),
                None => None,
            },
        }
    }
}


impl TypedNode for Matcher {
    /// What the matcher makes of `input` when it starts from `st` in the
    /// context `ctx`.
    open spec fn spec_parse(&self, ctx: Context, input: Seq<char>, st: State) -> Outcome
        decreases ctx.level(), self, 0nat,
    {
        match self {
            Matcher::Str(m) => m.spec_parse(ctx, input, st),
            Matcher::Insens(m) => m.spec_parse(ctx, input, st),
            Matcher::Skip(m) => m.spec_parse(ctx, input, st),
            Matcher::SkipChar(m) => m.spec_parse(ctx, input, st),
            Matcher::CharRange(m) => m.spec_parse(ctx, input, st),
            Matcher::Any => ANY.spec_parse(ctx, input, st),
            Matcher::Soi => SOI.spec_parse(ctx, input, st),
            Matcher::Eoi => EOI.spec_parse(ctx, input, st),
            Matcher::Newline => NEWLINE.spec_parse(ctx, input, st),
            Matcher::PeekAll => PEEK_ALL.spec_parse(ctx, input, st),
            Matcher::Peek => PEEK.spec_parse(ctx, input, st),
            Matcher::PeekSlice1(m) => m.spec_parse(ctx, input, st),
            Matcher::PeekSlice2(m) => m.spec_parse(ctx, input, st),
            Matcher::Pop => POP.spec_parse(ctx, input, st),
            Matcher::PopAll => POP_ALL.spec_parse(ctx, input, st),
            Matcher::Drop => DROP.spec_parse(ctx, input, st),
            Matcher::Push(m) => m.spec_parse(ctx, input, st),
            Matcher::Positive(m) => m.spec_parse(ctx, input, st),
            Matcher::Negative(m) => m.spec_parse(ctx, input, st),
            Matcher::Opt(m) => m.spec_parse(ctx, input, st),
            Matcher::Rep(m) => m.spec_parse(ctx, input, st),
            Matcher::Sequence(m) => m.spec_parse(ctx, input, st),
            Matcher::Choice(m) => m.spec_parse(ctx, input, st),
            Matcher::Restorable(m) => m.spec_parse(ctx, input, st),
            Matcher::Silent(m) => m.spec_parse(ctx, input, st),
            Matcher::Ignored => match ctx.ignored {
                Some(ign) => ign.spec_parse(ctx, input, st),
                None => st.accept(NodeView::Skipped(st.span_to(input, st.pos)), st.pos),
            },
            Matcher::AlwaysFail => AlwaysFail.spec_parse(ctx, input, st),
            Matcher::Empty => Empty.spec_parse(ctx, input, st),
            Matcher::Rule(m) => m.spec_parse(ctx, input, st),
            Matcher::AtomicRule(m) => m.spec_parse(ctx, input, st),
            Matcher::NonAtomicRule(m) => m.spec_parse(ctx, input, st),
        }
    }

    proof fn lemma_outcome(&self, ctx: Context, input: Seq<char>, st: State)
        decreases ctx.level(), self, 0nat,
    {
        match self {
            Matcher::Str(m) => m.lemma_outcome(ctx, input, st),
            Matcher::Insens(m) => m.lemma_outcome(ctx, input, st),
            Matcher::Skip(m) => m.lemma_outcome(ctx, input, st),
            Matcher::SkipChar(m) => m.lemma_outcome(ctx, input, st),
            Matcher::CharRange(m) => m.lemma_outcome(ctx, input, st),
            Matcher::Any => ANY.lemma_outcome(ctx, input, st),
            Matcher::Soi => SOI.lemma_outcome(ctx, input, st),
            Matcher::Eoi => EOI.lemma_outcome(ctx, input, st),
            Matcher::Newline => NEWLINE.lemma_outcome(ctx, input, st),
            Matcher::PeekAll => PEEK_ALL.lemma_outcome(ctx, input, st),
            Matcher::Peek => PEEK.lemma_outcome(ctx, input, st),
            Matcher::PeekSlice1(m) => m.lemma_outcome(ctx, input, st),
            Matcher::PeekSlice2(m) => m.lemma_outcome(ctx, input, st),
            Matcher::Pop => POP.lemma_outcome(ctx, input, st),
            Matcher::PopAll => POP_ALL.lemma_outcome(ctx, input, st),
            Matcher::Drop => DROP.lemma_outcome(ctx, input, st),
            Matcher::Push(m) => m.lemma_outcome(ctx, input, st),
            Matcher::Positive(m) => m.lemma_outcome(ctx, input, st),
            Matcher::Negative(m) => m.lemma_outcome(ctx, input, st),
            Matcher::Opt(m) => m.lemma_outcome(ctx, input, st),
            Matcher::Rep(m) => m.lemma_outcome(ctx, input, st),
            Matcher::Sequence(m) => m.lemma_outcome(ctx, input, st),
            Matcher::Choice(m) => m.lemma_outcome(ctx, input, st),
            Matcher::Restorable(m) => m.lemma_outcome(ctx, input, st),
            Matcher::Silent(m) => m.lemma_outcome(ctx, input, st),
            Matcher::Ignored => match ctx.ignored {
                Some(ign) => ign.lemma_outcome(ctx, input, st),
                None => {},
            },
            Matcher::AlwaysFail => AlwaysFail.lemma_outcome(ctx, input, st),
            Matcher::Empty => Empty.lemma_outcome(ctx, input, st),
            Matcher::Rule(m) => m.lemma_outcome(ctx, input, st),
            Matcher::AtomicRule(m) => m.lemma_outcome(ctx, input, st),
            Matcher::NonAtomicRule(m) => m.lemma_outcome(ctx, input, st),
        }
    }

    /// Matches the tree at `input`.
    ///
    /// Where the tree matches, the cursor behind the match and the node of
    /// the match are returned. Where it does not, nothing is returned, and
    /// `tracker` holds what the failed attempts recorded. The markers of
    /// `stack` are left as they were found.
    fn try_parse_with<'i>(
        &self,
        ctx: Context<'_>,
        input: Position<'i>,
        stack: &mut Stack<Span<'i>>,
        tracker: &mut Tracker<'i>,
    ) -> (res: Option<(Position<'i>, MatchNode<'i>)>)
        decreases ctx.level(), self, 0nat,
    {
        match self {
            Matcher::Str(m) => m.try_parse_with(ctx, input, stack, tracker),
            Matcher::Insens(m) => m.try_parse_with(ctx, input, stack, tracker),
            Matcher::Skip(m) => m.try_parse_with(ctx, input, stack, tracker),
            Matcher::SkipChar(m) => m.try_parse_with(ctx, input, stack, tracker),
            Matcher::CharRange(m) => m.try_parse_with(ctx, input, stack, tracker),
            Matcher::Any => ANY.try_parse_with(ctx, input, stack, tracker),
            Matcher::Soi => SOI.try_parse_with(ctx, input, stack, tracker),
            Matcher::Eoi => EOI.try_parse_with(ctx, input, stack, tracker),
            Matcher::Newline => NEWLINE.try_parse_with(ctx, input, stack, tracker),
            Matcher::PeekAll => PEEK_ALL.try_parse_with(ctx, input, stack, tracker),
            Matcher::Peek => PEEK.try_parse_with(ctx, input, stack, tracker),
            Matcher::PeekSlice1(m) => m.try_parse_with(ctx, input, stack, tracker),
            Matcher::PeekSlice2(m) => m.try_parse_with(ctx, input, stack, tracker),
            Matcher::Pop => POP.try_parse_with(ctx, input, stack, tracker),
            Matcher::PopAll => POP_ALL.try_parse_with(ctx, input, stack, tracker),
            Matcher::Drop => DROP.try_parse_with(ctx, input, stack, tracker),
            Matcher::Push(m) => m.try_parse_with(ctx, input, stack, tracker),
            Matcher::Positive(m) => m.try_parse_with(ctx, input, stack, tracker),
            Matcher::Negative(m) => m.try_parse_with(ctx, input, stack, tracker),
            Matcher::Opt(m) => m.try_parse_with(ctx, input, stack, tracker),
            Matcher::Rep(m) => m.try_parse_with(ctx, input, stack, tracker),
            Matcher::Sequence(m) => m.try_parse_with(ctx, input, stack, tracker),
            Matcher::Choice(m) => m.try_parse_with(ctx, input, stack, tracker),
            Matcher::Restorable(m) => m.try_parse_with(ctx, input, stack, tracker),
            Matcher::Silent(m) => m.try_parse_with(ctx, input, stack, tracker),
            Matcher::Ignored => match ctx.ignored {
                Some(ign) => ign.try_parse_with(ctx, input, stack, tracker),
                None => Some((input, MatchNode::Skipped(input.span_to(&input)))),
            },
            Matcher::AlwaysFail => AlwaysFail.try_parse_with(ctx, input, stack, tracker),
            Matcher::Empty => Empty.try_parse_with(ctx, input, stack, tracker),
            Matcher::Rule(m) => m.try_parse_with(ctx, input, stack, tracker),
            Matcher::AtomicRule(m) => m.try_parse_with(ctx, input, stack, tracker),
            Matcher::NonAtomicRule(m) => m.try_parse_with(ctx, input, stack, tracker),
        }
    }
}


/// Matches the body of a rule at `input`: failures inside are nested in
/// the rule, and the node keeps what `emission` says.
fn parse_rule<'i>(
    id: RuleId,
    emission: Emission,
    content: &Matcher,
    ctx: Context<'_>,
    input: Position<'i>,
    stack: &mut Stack<Span<'i>>,
    tracker: &mut Tracker<'i>,
) -> (res: Option<(Position<'i>, MatchNode<'i>)>)
    ensures
        final(stack).markers() == old(stack).markers(),
        agrees(
            res,
            input,
            *final(stack),
            *final(tracker),
            spec_rule(
                id,
                emission,
                *content,
                ctx,
                input@.input,
                state_of(input, *old(stack), *old(tracker)),
            ),
        ),
    decreases ctx.level(), content, 1nat,
{
    tracker.enter_rule(id);
    let res = content.try_parse_with(ctx, input, stack, tracker);
    tracker.exit_rule();
    match res {
        Some((end, node)) => {
            let span = if emission.emit_span() {
                Some(input.span_to(&end))
            } else {
                None
            };
            let content = if emission.emit_content() {
                Some(Box::new(node))
            } else {
                None
            };
            Some((end, MatchNode::Rule { id, span, content }))
        },
        None => None,
    }
}














impl ParsableTypedNode for Matcher {
}

impl ParsableTypedNode for Rule {
}

impl ParsableTypedNode for AtomicRule {
}

impl ParsableTypedNode for NonAtomicRule {
}

impl RuleWrapper for Rule {
    open spec fn spec_rule_id(&self) -> RuleId {
        self.id
    }

    fn rule_id(&self) -> (res: RuleId) {
        self.id
    }
}

impl RuleStruct for Rule {
    type Inner = Matcher;

    open spec fn spec_inner(&self) -> Matcher {
        *self.content
    }

    fn take_inner(self) -> (res: Matcher) {
        *self.content
    }

    fn ref_inner(&self) -> (res: &Matcher) {
        &self.content
    }
}

impl RuleWrapper for AtomicRule {
    open spec fn spec_rule_id(&self) -> RuleId {
        self.id
    }

    fn rule_id(&self) -> (res: RuleId) {
        self.id
    }
}

impl RuleStruct for AtomicRule {
    type Inner = Matcher;

    open spec fn spec_inner(&self) -> Matcher {
        *self.content
    }

    fn take_inner(self) -> (res: Matcher) {
        *self.content
    }

    fn ref_inner(&self) -> (res: &Matcher) {
        &self.content
    }
}

impl RuleWrapper for NonAtomicRule {
    open spec fn spec_rule_id(&self) -> RuleId {
        self.id
    }

    fn rule_id(&self) -> (res: RuleId) {
        self.id
    }
}

impl RuleStruct for NonAtomicRule {
    type Inner = Matcher;

    open spec fn spec_inner(&self) -> Matcher {
        *self.content
    }

    fn take_inner(self) -> (res: Matcher) {
        *self.content
    }

    fn ref_inner(&self) -> (res: &Matcher) {
        &self.content
    }
}

impl NeverFailedTypedNode for Opt {
    proof fn lemma_never_fails(&self, ctx: Context, input: Seq<char>, st: State) {
    }

    /// Matches the body at `input` where it can.
    fn parse_with<'i>(
        &self,
        ctx: Context<'_>,
        input: Position<'i>,
        stack: &mut Stack<Span<'i>>,
        tracker: &mut Tracker<'i>,
    ) -> (res: (Position<'i>, MatchNode<'i>))
    {
        match self.try_parse_with(ctx, input, stack, tracker) {
            Some(res) => res,
            None => (input, MatchNode::Opt(None)),
        }
    }
}

impl NeverFailedParsableTypedNode for Opt {
}

impl NeverFailedParsableTypedNode for Ign {
}

impl BoundWrapper for Rep {
    /// A repetition may match nothing.
    open spec fn spec_min(&self) -> nat {
        0
    }

    /// A repetition sets no bound of its own.
    open spec fn spec_max(&self) -> nat {
        usize::MAX as nat
    }

    fn min(&self) -> (res: usize) {
        0
    }

    fn max(&self) -> (res: usize) {
        usize::MAX
    }
}

/// Runs `f` on `stack` under the protection of a snapshot: where `f`
/// returns nothing, the stack is cut back to the length it had; where it
/// returns something, the stack stays as `f` left it.
pub fn restore_on_none<E, T, F: FnOnce(&mut Stack<E>) -> Option<T>>(
    stack: &mut Stack<E>,
    f: F,
) -> (res: Option<T>)
    requires
        forall|s: &mut Stack<E>| f.requires((s,)),
        forall|s: &mut Stack<E>, r: Option<T>|
            f.ensures((s,), r) ==> final(s).markers() == s.markers(),
    ensures
        final(stack).markers() == old(stack).markers(),
        exists|s: &mut Stack<E>|
            {
                &&& s@ == old(stack)@
                &&& s.markers() == old(stack).markers().push(old(stack)@.len())
                &&& f.ensures((s,), res)
                &&& final(stack)@ == if res is Some {
                    final(s)@
                } else {
                    truncated(final(s)@, old(stack)@.len())
                }
            },
{
    stack.snapshot();
    let res = f(stack);
    match res {
        Some(_) => stack.clear_snapshot(),
        None => stack.restore(),
    }
    res
}

impl Matcher {
    /// The matcher of the literal `text`.
    pub fn literal(text: &str) -> (res: Matcher)
        ensures
            res matches Matcher::Str(m) && m.content@ == text@,
    {
        Matcher::Str(Str::new(text))
    }

    /// The matcher of the literal `text`, whatever its case.
    pub fn insensitive(text: &str) -> (res: Matcher)
        ensures
            res matches Matcher::Insens(m) && m.content@ == text@,
    {
        Matcher::Insens(Insens::new(text))
    }

    /// The matcher of one character between `min` and `max`, both
    /// included.
    pub fn range(min: char, max: char) -> (res: Matcher)
        ensures
            res == Matcher::CharRange(CharRange { min, max }),
    {
        Matcher::CharRange(CharRange { min, max })
    }

    /// The matcher of `members` one after the other.
    pub fn sequence(members: Vec<Matcher>) -> (res: Matcher)
        ensures
            res == Matcher::Sequence(Sequence { content: members }),
    {
        Matcher::Sequence(Sequence { content: members })
    }

    /// The matcher of `first`, or else of `second`.
    pub fn choice(first: Matcher, second: Matcher) -> (res: Matcher)
        ensures
            res == Matcher::Choice(Either { first: Box::new(first), second: Box::new(second) }),
    {
        Matcher::Choice(Either { first: Box::new(first), second: Box::new(second) })
    }

    /// The matcher of `content` where it matches, and of nothing where
    /// it does not.
    pub fn optional(content: Matcher) -> (res: Matcher)
        ensures
            res == Matcher::Opt(Opt { content: Box::new(content) }),
    {
        Matcher::Opt(Opt { content: Box::new(content) })
    }

    /// The matcher of `content` as often as it matches.
    pub fn repeat(content: Matcher) -> (res: Matcher)
        ensures
            res == Matcher::Rep(Rep { content: Box::new(content) }),
    {
        Matcher::Rep(Rep { content: Box::new(content) })
    }

    /// The lookahead that holds where `content` matches.
    pub fn positive(content: Matcher) -> (res: Matcher)
        ensures
            res == Matcher::Positive(Positive { content: Box::new(content) }),
    {
        Matcher::Positive(Positive { content: Box::new(content) })
    }

    /// The lookahead that holds where `content` does not match.
    pub fn negative(content: Matcher) -> (res: Matcher)
        ensures
            res == Matcher::Negative(Negative { content: Box::new(content) }),
    {
        Matcher::Negative(Negative { content: Box::new(content) })
    }

    /// The matcher of `content` that pushes the span of the match.
    pub fn push(content: Matcher) -> (res: Matcher)
        ensures
            res == Matcher::Push(Push { content: Box::new(content) }),
    {
        Matcher::Push(Push { content: Box::new(content) })
    }

    /// The matcher of `content` that puts the stack back on failure.
    pub fn restorable(content: Matcher) -> (res: Matcher)
        ensures
            res == Matcher::Restorable(Restorable { content: Box::new(content) }),
    {
        Matcher::Restorable(Restorable { content: Box::new(content) })
    }

    /// The rule `id` with the body `content`. Its atomicity is `None`
    /// where it leaves the skipping of insignificant text as its caller
    /// has it, `Some(true)` where it switches the skipping off, and
    /// `Some(false)` where it switches it on.
    pub fn rule(id: RuleId, atomicity: Option<bool>, emission: Emission, content: Matcher) -> (res:
        Matcher)
        ensures
            res == match atomicity {
                None => Matcher::Rule(Rule { id, emission, content: Box::new(content) }),
                Some(true) => Matcher::AtomicRule(
                    AtomicRule { id, emission, content: Box::new(content) },
                ),
                Some(false) => Matcher::NonAtomicRule(
                    NonAtomicRule { id, emission, content: Box::new(content) },
                ),
            },
    {
        match atomicity {
            None => Matcher::Rule(Rule { id, emission, content: Box::new(content) }),
            Some(true) => Matcher::AtomicRule(
                AtomicRule { id, emission, content: Box::new(content) },
            ),
            Some(false) => Matcher::NonAtomicRule(
                NonAtomicRule { id, emission, content: Box::new(content) },
            ),
        }
    }
}

} // verus!
