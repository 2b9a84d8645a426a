//! Whole parses: from the start of an input to a syntax tree or an error.

use vstd::prelude::*;
use crate::combinator::spec_ignore;
use crate::combinator::Context;
use crate::combinator::Ign;
use crate::combinator::Matcher;
use crate::error::Error;
use crate::node::MatchNode;
use crate::position::Position;
use crate::position::PositionView;
use crate::span::Span;
use crate::span::SpanView;
use crate::stack::Stack;
use crate::state::agrees;
use crate::state::state_of;
use crate::state::Outcome;
use crate::state::State;
use crate::terminal::EOI;
use crate::tracker::Tracker;
use crate::tracker::TrackerView;
use crate::typed_node::NeverFailedTypedNode;
use crate::typed_node::TypedNode;

verus! {

/// How many matches a repetition may make where nothing else is said.
pub const REPEAT_LIMIT: usize = 1024;

/// What a grammar says beside its rules: what insignificant text is, and
/// how many matches a repetition may make.
#[derive(Debug, PartialEq, Eq)]
pub struct Grammar {
    pub ignored: Ign,
    pub repeat_limit: usize,
}

impl Grammar {
    /// A grammar without insignificant text, with the usual limit.
    pub fn new() -> (res: Grammar)
        ensures
            res.ignored.whitespace == Matcher::AlwaysFail,
            res.ignored.comment == Matcher::AlwaysFail,
            res.repeat_limit == REPEAT_LIMIT,
    {
        Grammar {
            ignored: Ign { comment: Matcher::AlwaysFail, whitespace: Matcher::AlwaysFail },
            repeat_limit: REPEAT_LIMIT,
        }
    }

    /// A grammar with the given rules of insignificant text, with the
    /// usual limit.
    pub fn with_ignored(whitespace: Matcher, comment: Matcher) -> (res: Grammar)
        ensures
            res.ignored.whitespace == whitespace,
            res.ignored.comment == comment,
            res.repeat_limit == REPEAT_LIMIT,
    {
        Grammar { ignored: Ign { comment, whitespace }, repeat_limit: REPEAT_LIMIT }
    }

    /// The context that a parse starts in: insignificant text is skipped.
    pub open spec fn spec_context(&self) -> Context<'_> {
        Context { ignored: Some(&self.ignored), atomic: false, repeat_limit: self.repeat_limit }
    }

    /// The context that a parse starts in: insignificant text is skipped.
    pub fn context(&self) -> (res: Context<'_>)
        ensures
            res == self.spec_context(),
    {
        Context { ignored: Some(&self.ignored), atomic: false, repeat_limit: self.repeat_limit }
    }
}

/// The state that a parse of `input` starts from: the cursor at the
/// start, an empty stack, and no failure recorded.
pub open spec fn spec_start(input: Seq<char>) -> State {
    State { pos: 0, stack: Seq::empty(), tracker: TrackerView::start(input) }
}

/// What is made of the outcome `out` of a root rule when the whole input
/// has to be consumed: where the rule matched, insignificant text is
/// skipped once more, if `skip` says so, and the end of the input must
/// follow.
pub open spec fn spec_until_end(
    out: Outcome,
    ctx: Context,
    input: Seq<char>,
    skip: bool,
) -> Outcome {
    if out.matched() {
        let ready = if skip {
            spec_ignore(ctx, input, out.state)
        } else {
            out.state
        };
        let end = EOI.spec_parse(ctx, input, ready);
        if end.matched() {
            Outcome { node: out.node, state: end.state }
        } else {
            end
        }
    } else {
        out
    }
}

/// Whether `out`, the outcome of a root rule, leaves nothing of the input
/// unconsumed but insignificant text.
pub open spec fn consumes_all(out: Outcome, ctx: Context, input: Seq<char>, skip: bool) -> bool {
    &&& out.matched()
    &&& if skip {
        spec_ignore(ctx, input, out.state).pos == input.len()
    } else {
        out.state.pos == input.len()
    }
}

/// The outcome of matching `rule` at the start of `input`.
pub open spec fn partial_parse<T: TypedNode>(rule: T, grammar: Grammar, input: Seq<char>) -> Outcome {
    rule.spec_parse(grammar.spec_context(), input, spec_start(input))
}

/// The outcome of matching `rule` against the whole of `input`,
/// insignificant text at the end put aside.
pub open spec fn whole_parse<T: TypedNode>(rule: T, grammar: Grammar, input: Seq<char>) -> Outcome {
    spec_until_end(partial_parse(rule, grammar, input), grammar.spec_context(), input, true)
}

/// The outcome of matching `rule` against the whole of `input`.
pub open spec fn whole_parse_without_ignore<T: TypedNode>(
    rule: T,
    grammar: Grammar,
    input: Seq<char>,
) -> Outcome {
    spec_until_end(partial_parse(rule, grammar, input), grammar.spec_context(), input, false)
}

/// Whether what a whole parse returned is what `out` says: the node of
/// the match, or the error that the record of failures amounts to.
pub open spec fn reports<'i>(res: Result<MatchNode<'i>, Error>, out: Outcome) -> bool {
    match res {
        Ok(node) => out.node == Some(node@),
        Err(error) => out.node is None && error@ == out.state.tracker.error(),
    }
}

/// Whether what a parse of a prefix returned is what `out` says.
pub open spec fn reports_partial<'i>(
    res: Result<(Position<'i>, MatchNode<'i>), Error>,
    input: Seq<char>,
    out: Outcome,
) -> bool {
    match res {
        Ok((position, node)) => out.node == Some(node@) && position@ == (PositionView {
            input,
            offset: out.state.pos,
        }),
        Err(error) => out.node is None && error@ == out.state.tracker.error(),
    }
}

/// Brings a parse of the whole input to its end, from what the root rule
/// returned.
fn until_end<'i>(
    res: Option<(Position<'i>, MatchNode<'i>)>,
    ctx: Context<'_>,
    skip: bool,
    start: Position<'i>,
    stack: Stack<Span<'i>>,
    tracker: Tracker<'i>,
    Ghost(out): Ghost<Outcome>,
) -> (end: Result<MatchNode<'i>, Error>)
    requires
        agrees(res, start, stack, tracker, out),
    ensures
        reports(end, spec_until_end(out, ctx, start@.input, skip)),
        end is Ok <==> consumes_all(out, ctx, start@.input, skip),
{
    let mut stack = stack;
    let mut tracker = tracker;
    match res {
        Some((position, node)) => {
            let mut ready = position;
            if skip {
                match ctx.ignored {
                    Some(ign) => {
                        ready = ign.parse_with(ctx, position, &mut stack, &mut tracker).0;
                    },
                    None => {},
                }
            }
            match EOI.try_parse_with(ctx, ready, &mut stack, &mut tracker) {
                Some(_) => Ok(node),
                None => Err(tracker.finish()),
            }
        },
        None => Err(tracker.finish()),
    }
}

/// Brings a parse of a prefix to its end, from what the root rule
/// returned.
fn partial_end<'i>(
    res: Option<(Position<'i>, MatchNode<'i>)>,
    start: Position<'i>,
    stack: Stack<Span<'i>>,
    tracker: Tracker<'i>,
    Ghost(out): Ghost<Outcome>,
) -> (end: Result<(Position<'i>, MatchNode<'i>), Error>)
    requires
        agrees(res, start, stack, tracker, out),
    ensures
        reports_partial(end, start@.input, out),
        end is Ok <==> out.matched(),
{
    match res {
        Some((position, node)) => Ok((position, node)),
        None => Err(tracker.finish()),
    }
}

/// Parses the whole of `input` by `rule`.
///
/// The parse succeeds exactly when the rule matches at the start of the
/// input and nothing but insignificant text is left behind the match. A
/// parse that fails returns the error that the furthest failure amounts
/// to.
pub fn parse<'i, T: TypedNode>(rule: &T, grammar: &Grammar, input: &'i [char]) -> (res: Result<
    MatchNode<'i>,
    Error,
>)
    ensures
        reports(res, whole_parse(*rule, *grammar, input@)),
        res is Ok <==> consumes_all(
            partial_parse(*rule, *grammar, input@),
            grammar.spec_context(),
            input@,
            true,
        ),
{
    let ctx = grammar.context();
    let start = Position::from_start(input);
    let mut stack: Stack<Span<'i>> = Stack::new();
    let mut tracker = Tracker::new(start);
    assert(state_of(start, stack, tracker) == spec_start(input@)) by {
        assert(crate::node::span_views(stack@) =~= Seq::<SpanView>::empty());
    }
    let res = rule.try_parse_with(ctx, start, &mut stack, &mut tracker);
    until_end(
        res,
        ctx,
        true,
        start,
        stack,
        tracker,
        Ghost(partial_parse(*rule, *grammar, input@)),
    )
}

/// Parses the whole of `input` by `rule`, and lets no insignificant text
/// follow the match.
pub fn parse_without_ignore<'i, T: TypedNode>(
    rule: &T,
    grammar: &Grammar,
    input: &'i [char],
) -> (res:
    Result<MatchNode<'i>, Error>)
    ensures
        reports(res, whole_parse_without_ignore(*rule, *grammar, input@)),
        res is Ok <==> consumes_all(
            partial_parse(*rule, *grammar, input@),
            grammar.spec_context(),
            input@,
            false,
        ),
{
    let ctx = grammar.context();
    let start = Position::from_start(input);
    let mut stack: Stack<Span<'i>> = Stack::new();
    let mut tracker = Tracker::new(start);
    assert(state_of(start, stack, tracker) == spec_start(input@)) by {
        assert(crate::node::span_views(stack@) =~= Seq::<SpanView>::empty());
    }
    let res = rule.try_parse_with(ctx, start, &mut stack, &mut tracker);
    until_end(
        res,
        ctx,
        false,
        start,
        stack,
        tracker,
        Ghost(partial_parse(*rule, *grammar, input@)),
    )
}

/// Parses a prefix of `input` by `rule` and returns the cursor behind the
/// match beside its node.
pub fn parse_partial<'i, T: TypedNode>(rule: &T, grammar: &Grammar, input: &'i [char]) -> (res: Result<
    (Position<'i>, MatchNode<'i>),
    Error,
>)
    ensures
        reports_partial(res, input@, partial_parse(*rule, *grammar, input@)),
        res is Ok <==> partial_parse(*rule, *grammar, input@).matched(),
{
    let ctx = grammar.context();
    let start = Position::from_start(input);
    let mut stack: Stack<Span<'i>> = Stack::new();
    let mut tracker = Tracker::new(start);
    assert(state_of(start, stack, tracker) == spec_start(input@)) by {
        assert(crate::node::span_views(stack@) =~= Seq::<SpanView>::empty());
    }
    let res = rule.try_parse_with(ctx, start, &mut stack, &mut tracker);
    partial_end(res, start, stack, tracker, Ghost(partial_parse(*rule, *grammar, input@)))
}

} // verus!
