//! What all matchers have in common.

use vstd::prelude::*;
use crate::combinator::Context;
use crate::error::Error;
use crate::error::RuleId;
use crate::node::span_view;
use crate::node::span_views;
use crate::node::MatchNode;
use crate::parser::consumes_all;
use crate::parser::parse;
use crate::parser::parse_partial;
use crate::parser::partial_parse;
use crate::parser::reports;
use crate::parser::reports_partial;
use crate::parser::spec_start;
use crate::parser::whole_parse;
use crate::parser::Grammar;
use crate::position::Position;
use crate::position::PositionView;
use crate::span::Span;
use crate::span::SpanView;
use crate::stack::Stack;
use crate::state::agrees;
use crate::state::sound;
use crate::state::state_of;
use crate::state::Outcome;
use crate::state::State;
use crate::tracker::Tracker;
use crate::wrapper::RuleWrapper;

verus! {

/// A matcher: something that can be matched against the input at a
/// cursor.
pub trait TypedNode {
    /// What the matcher makes of `input` when it starts from `st` in the
    /// context `ctx`.
    spec fn spec_parse(&self, ctx: Context, input: Seq<char>, st: State) -> Outcome;

    /// Whatever the matcher starts from, what it leaves behind is sound:
    /// the match ends neither before its start nor behind the end of the
    /// input, a failed match leaves the cursor where it was, the furthest
    /// failure has not retreated, and the rules and the lookahead being
    /// matched are the same as before.
    proof fn lemma_outcome(&self, ctx: Context, input: Seq<char>, st: State)
        requires
            st.pos <= input.len(),
        ensures
            sound(input, st, self.spec_parse(ctx, input, st)),
    ;

    /// Matches at `input`.
    ///
    /// Where the matcher matches, the cursor behind the match and the node
    /// of the match are returned. Where it does not, nothing is returned,
    /// and `tracker` holds what the failed attempts recorded. The markers
    /// of `stack` are left as they were found.
    fn try_parse_with<'i>(
        &self,
        ctx: Context<'_>,
        input: Position<'i>,
        stack: &mut Stack<Span<'i>>,
        tracker: &mut Tracker<'i>,
    ) -> (res: Option<(Position<'i>, MatchNode<'i>)>)
        ensures
            final(stack).markers() == old(stack).markers(),
            agrees(
                res,
                input,
                *final(stack),
                *final(tracker),
                self.spec_parse(ctx, input@.input, state_of(input, *old(stack), *old(tracker))),
            ),
    ;
}

/// A matcher that always matches.
pub trait NeverFailedTypedNode: TypedNode {
    /// The matcher matches wherever it starts.
    proof fn lemma_never_fails(&self, ctx: Context, input: Seq<char>, st: State)
        ensures
            self.spec_parse(ctx, input, st).matched(),
    ;

    /// Matches at `input`.
    fn parse_with<'i>(
        &self,
        ctx: Context<'_>,
        input: Position<'i>,
        stack: &mut Stack<Span<'i>>,
        tracker: &mut Tracker<'i>,
    ) -> (res: (Position<'i>, MatchNode<'i>))
        ensures
            final(stack).markers() == old(stack).markers(),
            agrees(
                Some(res),
                input,
                *final(stack),
                *final(tracker),
                self.spec_parse(ctx, input@.input, state_of(input, *old(stack), *old(tracker))),
            ),
    ;
}

/// A matcher that whole inputs can be parsed by.
pub trait ParsableTypedNode: TypedNode + Sized {
    /// Parses the whole of `input`.
    ///
    /// The parse succeeds exactly when the matcher matches at the start of
    /// the input and nothing but insignificant text is left behind the
    /// match.
    fn try_parse<'i>(&self, grammar: &Grammar, input: &'i [char]) -> (res: Result<
        MatchNode<'i>,
        Error,
    >)
        ensures
            reports(res, whole_parse(*self, *grammar, input@)),
            res is Ok <==> consumes_all(
                partial_parse(*self, *grammar, input@),
                grammar.spec_context(),
                input@,
                true,
            ),
    {
        parse(self, grammar, input)
    }

    /// Parses a prefix of `input` and returns the cursor behind the match
    /// beside its node.
    fn try_parse_partial<'i>(&self, grammar: &Grammar, input: &'i [char]) -> (res: Result<
        (Position<'i>, MatchNode<'i>),
        Error,
    >)
        ensures
            reports_partial(res, input@, partial_parse(*self, *grammar, input@)),
            res is Ok <==> partial_parse(*self, *grammar, input@).matched(),
    {
        parse_partial(self, grammar, input)
    }
}

/// A matcher that never matches.
pub trait AlwaysFailed: TypedNode {
    /// The matcher fails wherever it starts.
    proof fn lemma_always_fails(&self, ctx: Context, input: Seq<char>, st: State)
        ensures
            !self.spec_parse(ctx, input, st).matched(),
    ;
}

/// A matcher that always matches, as the root of a parse.
pub trait NeverFailedParsableTypedNode: NeverFailedTypedNode + Sized {
    /// Matches at the start of `input` and returns the cursor behind the
    /// match beside its node.
    fn parse_partial<'i>(&self, grammar: &Grammar, input: &'i [char]) -> (res: (
        Position<'i>,
        MatchNode<'i>,
    ))
        ensures
            partial_parse(*self, *grammar, input@).node == Some(res.1@),
            res.0@ == (PositionView {
                input: input@,
                offset: partial_parse(*self, *grammar, input@).state.pos,
            }),
    {
        let start = Position::from_start(input);
        let mut stack: Stack<Span<'i>> = Stack::new();
        let mut tracker = Tracker::new(start);
        assert(state_of(start, stack, tracker) == spec_start(input@)) by {
            assert(span_views(stack@) =~= Seq::<SpanView>::empty());
        }
        self.parse_with(grammar.context(), start, &mut stack, &mut tracker)
    }

    /// Matches at the start of `input` and returns the node of the match.
    /// What the match leaves of the input is not looked at.
    fn parse<'i>(&self, grammar: &Grammar, input: &'i [char]) -> (res: MatchNode<'i>)
        ensures
            partial_parse(*self, *grammar, input@).node == Some(res@),
    {
        self.parse_partial(grammar, input).1
    }
}

/// Something that stands for a rule.
pub trait RuleStorage {
    /// Identity of the rule.
    spec fn spec_rule(&self) -> RuleId;

    /// Identity of the rule.
    fn rule(&self) -> (res: RuleId)
        ensures
            res == self.spec_rule(),
    ;
}

impl<T: RuleWrapper> RuleStorage for T {
    open spec fn spec_rule(&self) -> RuleId {
        self.spec_rule_id()
    }

    fn rule(&self) -> (res: RuleId) {
        self.rule_id()
    }
}

/// A rule with a body.
pub trait RuleStruct: RuleStorage + Sized {
    /// What the body is.
    type Inner;

    /// The body.
    spec fn spec_inner(&self) -> Self::Inner;

    /// Gives the body away.
    fn take_inner(self) -> (res: Self::Inner)
        ensures
            res == self.spec_inner(),
    ;

    /// The body.
    fn ref_inner(&self) -> (res: &Self::Inner)
        ensures
            *res == self.spec_inner(),
    ;
}

/// A node that may cover a span of the input.
pub trait Spanned<'i> {
    /// The span that the node holds, where it holds one.
    spec fn spec_span(&self) -> Option<SpanView>;

    /// The span that the node holds, where it holds one.
    fn span(&self) -> (res: Option<Span<'i>>)
        ensures
            span_view(res) == self.spec_span(),
    ;
}

} // verus!
