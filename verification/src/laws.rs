//! What holds of the matchers whatever the grammar and the input are.

use vstd::prelude::*;
use crate::backref::match_entries;
use crate::backref::peek_slice;
use crate::backref::PEEK_ALL;
use crate::backref::POP_ALL;
use crate::combinator::remaining;
use crate::combinator::spec_ignore;
use crate::combinator::spec_rule;
use crate::combinator::Emission;
use crate::combinator::Ign;
use crate::combinator::Matcher;
use crate::combinator::Sequence;
use crate::error::RuleId;
use crate::combinator::Context;
use crate::combinator::Either;
use crate::combinator::Negative;
use crate::combinator::Opt;
use crate::combinator::Positive;
use crate::combinator::Rep;
use crate::combinator::Restorable;
use crate::error::FailureView;
use crate::node::Choice;
use crate::node::NodeView;
use crate::parser::consumes_all;
use crate::parser::partial_parse;
use crate::parser::whole_parse;
use crate::parser::whole_parse_without_ignore;
use crate::parser::Grammar;
use crate::span::SpanView;
use crate::stack::between;
use crate::stack::resolve_index;
use crate::stack::resolve_range;
use crate::stack::truncated;
use crate::state::Outcome;
use crate::state::State;
use crate::terminal::NEWLINE;
use crate::tracker::TrackerView;
use crate::typed_node::TypedNode;

verus! {

/// A whole parse succeeds exactly when the rule matches at the start of
/// the input and the match, with the insignificant text behind it, reaches
/// the end of the input. A match that leaves anything else unconsumed makes
/// the parse fail.
pub proof fn lemma_parse_consumes_input<T: TypedNode>(rule: T, grammar: Grammar, input: Seq<char>)
    ensures
        whole_parse(rule, grammar, input).matched() <==> consumes_all(
            partial_parse(rule, grammar, input),
            grammar.spec_context(),
            input,
            true,
        ),
        whole_parse(rule, grammar, input).matched() ==> whole_parse(
            rule,
            grammar,
            input,
        ).state.pos == input.len() && whole_parse(rule, grammar, input).node == partial_parse(
            rule,
            grammar,
            input,
        ).node,
        whole_parse_without_ignore(rule, grammar, input).matched() <==> partial_parse(
            rule,
            grammar,
            input,
        ).matched() && partial_parse(rule, grammar, input).state.pos == input.len(),
{
}

/// Ordered choice commits to the first alternative that matches: what it
/// leaves behind is what that alternative left behind, and the second
/// alternative has no part in it, however much more it could match.
pub proof fn lemma_choice_first_wins(choice: Either, ctx: Context, input: Seq<char>, st: State)
    requires
        choice.first.spec_parse(ctx, input, st).matched(),
    ensures
        choice.spec_parse(ctx, input, st).state == choice.first.spec_parse(ctx, input, st).state,
        choice.spec_parse(ctx, input, st).node == Some(
            NodeView::Choice(
                Choice::First(Box::new(choice.first.spec_parse(ctx, input, st).node->0)),
            ),
        ),
{
}

/// Where the first alternative fails, the second is tried from the
/// offset that the first was tried from, and decides.
pub proof fn lemma_choice_second_decides(choice: Either, ctx: Context, input: Seq<char>, st: State)
    requires
        st.pos <= input.len(),
        !choice.first.spec_parse(ctx, input, st).matched(),
    ensures
        choice.first.spec_parse(ctx, input, st).state.pos == st.pos,
        choice.spec_parse(ctx, input, st).matched() == choice.second.spec_parse(
            ctx,
            input,
            choice.first.spec_parse(ctx, input, st).state,
        ).matched(),
        choice.spec_parse(ctx, input, st).state == choice.second.spec_parse(
            ctx,
            input,
            choice.first.spec_parse(ctx, input, st).state,
        ).state,
{
    choice.first.lemma_outcome(ctx, input, st);
}

/// Cutting a stack back to a length it had brings back the stack it was,
/// where nothing below that length was taken off since.
pub proof fn lemma_truncated_extension<T>(before: Seq<T>, after: Seq<T>)
    requires
        before.is_prefix_of(after),
    ensures
        truncated(after, before.len()) == before,
{
}

/// A stack that was cut back is never longer than the length it was cut
/// back to, and holds what the stack held below that length.
pub proof fn lemma_truncated<T>(entries: Seq<T>, len: nat)
    ensures
        truncated(entries, len).len() <= len,
        truncated(entries, len).is_prefix_of(entries),
{
}

/// A positive lookahead holds exactly where its body matches. It consumes
/// nothing, and what its body pushed on the stack is gone afterwards.
pub proof fn lemma_positive(look: Positive, ctx: Context, input: Seq<char>, st: State)
    ensures
        ({
            let inner = look.content.spec_parse(
                ctx,
                input,
                State { tracker: st.tracker.with_mode(Some(true)), ..st },
            );
            let out = look.spec_parse(ctx, input, st);
            &&& out.matched() == inner.matched()
            &&& out.state.pos == st.pos
            &&& out.state.stack == truncated(inner.state.stack, st.stack.len())
            &&& out.state.stack.len() <= st.stack.len()
            &&& st.stack.is_prefix_of(inner.state.stack) ==> out.state.stack == st.stack
        }),
{
    let inner = look.content.spec_parse(
        ctx,
        input,
        State { tracker: st.tracker.with_mode(Some(true)), ..st },
    );
    lemma_truncated(inner.state.stack, st.stack.len());
    if st.stack.is_prefix_of(inner.state.stack) {
        lemma_truncated_extension(st.stack, inner.state.stack);
    }
}

/// A negative lookahead holds exactly where its body does not match. It
/// consumes nothing, and what its body pushed on the stack is gone
/// afterwards. Where it does not hold, it fails as a lookahead, whatever
/// its body matched.
pub proof fn lemma_negative(look: Negative, ctx: Context, input: Seq<char>, st: State)
    ensures
        ({
            let inner = look.content.spec_parse(
                ctx,
                input,
                State { tracker: st.tracker.with_mode(Some(false)), ..st },
            );
            let out = look.spec_parse(ctx, input, st);
            &&& out.matched() == !inner.matched()
            &&& out.state.pos == st.pos
            &&& out.state.stack == truncated(inner.state.stack, st.stack.len())
            &&& out.state.stack.len() <= st.stack.len()
            &&& st.stack.is_prefix_of(inner.state.stack) ==> out.state.stack == st.stack
            &&& !out.matched() ==> out.state.tracker == inner.state.tracker.with_mode(
                st.tracker.mode,
            ).record(FailureView::PredicateFailed { positive: false }, st.at(input))
        }),
{
    let inner = look.content.spec_parse(
        ctx,
        input,
        State { tracker: st.tracker.with_mode(Some(false)), ..st },
    );
    lemma_truncated(inner.state.stack, st.stack.len());
    if st.stack.is_prefix_of(inner.state.stack) {
        lemma_truncated_extension(st.stack, inner.state.stack);
    }
}

/// An optional match never fails. Where its body fails, nothing is
/// consumed, and what the body pushed on the stack is gone.
pub proof fn lemma_optional(opt: Opt, ctx: Context, input: Seq<char>, st: State)
    ensures
        opt.spec_parse(ctx, input, st).matched(),
        !opt.content.spec_parse(ctx, input, st).matched() ==> {
            &&& opt.spec_parse(ctx, input, st).node == Some(NodeView::Opt(None))
            &&& opt.spec_parse(ctx, input, st).state.pos == st.pos
            &&& opt.spec_parse(ctx, input, st).state.stack.len() <= st.stack.len()
            &&& st.stack.is_prefix_of(opt.content.spec_parse(ctx, input, st).state.stack)
                ==> opt.spec_parse(ctx, input, st).state.stack == st.stack
        },
        opt.content.spec_parse(ctx, input, st).matched() ==> opt.spec_parse(ctx, input, st).state
            == opt.content.spec_parse(ctx, input, st).state,
{
    let inner = opt.content.spec_parse(ctx, input, st);
    lemma_truncated(inner.state.stack, st.stack.len());
    if st.stack.is_prefix_of(inner.state.stack) {
        lemma_truncated_extension(st.stack, inner.state.stack);
    }
}

/// A restorable match fails exactly where its body fails, and then
/// leaves of the stack no more than there was. Where the body matches,
/// what it did to the stack stays done.
pub proof fn lemma_restorable(guard: Restorable, ctx: Context, input: Seq<char>, st: State)
    ensures
        guard.spec_parse(ctx, input, st).matched() == guard.content.spec_parse(
            ctx,
            input,
            st,
        ).matched(),
        guard.spec_parse(ctx, input, st).state.tracker == guard.content.spec_parse(
            ctx,
            input,
            st,
        ).state.tracker,
        !guard.spec_parse(ctx, input, st).matched() ==> {
            &&& guard.spec_parse(ctx, input, st).state.stack.len() <= st.stack.len()
            &&& st.stack.is_prefix_of(guard.content.spec_parse(ctx, input, st).state.stack)
                ==> guard.spec_parse(ctx, input, st).state.stack == st.stack
        },
        guard.spec_parse(ctx, input, st).matched() ==> guard.spec_parse(ctx, input, st).state
            == guard.content.spec_parse(ctx, input, st).state,
{
    let inner = guard.content.spec_parse(ctx, input, st);
    lemma_truncated(inner.state.stack, st.stack.len());
    if st.stack.is_prefix_of(inner.state.stack) {
        lemma_truncated_extension(st.stack, inner.state.stack);
    }
}

/// Where the skipping of insignificant text is switched off, nothing is
/// skipped: neither the cursor nor the stack nor the record of failures
/// changes.
pub proof fn lemma_atomic_skips_nothing(ctx: Context, input: Seq<char>, st: State)
    requires
        ctx.atomic,
    ensures
        spec_ignore(ctx, input, st) == st,
{
}

/// Skipping insignificant text never moves the cursor back nor behind the
/// end of the input.
pub proof fn lemma_ignore_advances(ctx: Context, input: Seq<char>, st: State)
    requires
        st.pos <= input.len(),
    ensures
        st.pos <= spec_ignore(ctx, input, st).pos <= input.len(),
        st.tracker.precedes(spec_ignore(ctx, input, st).tracker),
{
    match ctx.ignored {
        Some(ign) => {
            ign.lemma_outcome(ctx, input, st);
        },
        None => {},
    }
}

/// A repetition that goes on from its match number `count` yields, where
/// it succeeds, a node that holds the matches made so far and no more
/// than the limit allows.
pub proof fn lemma_rep_from_bounded(
    rep: Rep,
    ctx: Context,
    input: Seq<char>,
    st: State,
    count: nat,
    nodes: Seq<NodeView>,
)
    requires
        nodes.len() == count,
        count <= ctx.repeat_limit,
    ensures
        rep.spec_from(ctx, input, st, count, nodes).node matches Some(node) ==> node
            matches NodeView::Rep(all) && nodes.is_prefix_of(all) && all.len()
            <= ctx.repeat_limit,
    decreases ctx.repeat_limit - count,
{
    let ready = match ctx.ignored {
        Some(ign) => if count > 0 {
            ign.spec_parse(ctx, input, st).state
        } else {
            st
        },
        None => st,
    };
    let out = rep.content.spec_parse(ctx, input, ready);
    match out.node {
        Some(node) => {
            if count < ctx.repeat_limit {
                lemma_rep_from_bounded(rep, ctx, input, out.state, count + 1, nodes.push(node));
                let end = rep.spec_from(ctx, input, out.state, count + 1, nodes.push(node));
                match end.node {
                    Some(NodeView::Rep(all)) => {
                        assert forall|k: int| 0 <= k < nodes.len() implies nodes[k] == all[k] by {
                            assert(nodes.push(node)[k] == nodes[k]);
                        }
                    },
                    _ => {},
                }
            }
        },
        None => {},
    }
}

/// A repetition that succeeds holds no more matches than the limit
/// allows.
pub proof fn lemma_rep_bounded(rep: Rep, ctx: Context, input: Seq<char>, st: State)
    ensures
        rep.spec_parse(ctx, input, st).node matches Some(node) ==> node matches NodeView::Rep(all)
            && all.len() <= ctx.repeat_limit,
{
    lemma_rep_from_bounded(rep, ctx, input, st, 0, Seq::empty());
}

/// A repetition of a body that matches wherever it is tried does not go
/// on for ever: it runs into its limit and fails.
pub proof fn lemma_rep_from_runs_into_limit(
    rep: Rep,
    ctx: Context,
    input: Seq<char>,
    st: State,
    count: nat,
    nodes: Seq<NodeView>,
)
    requires
        count <= ctx.repeat_limit,
        forall|s: State| (#[trigger] rep.content.spec_parse(ctx, input, s)).matched(),
    ensures
        !rep.spec_from(ctx, input, st, count, nodes).matched(),
    decreases ctx.repeat_limit - count,
{
    let ready = match ctx.ignored {
        Some(ign) => if count > 0 {
            ign.spec_parse(ctx, input, st).state
        } else {
            st
        },
        None => st,
    };
    let out = rep.content.spec_parse(ctx, input, ready);
    if count < ctx.repeat_limit {
        lemma_rep_from_runs_into_limit(
            rep,
            ctx,
            input,
            out.state,
            count + 1,
            nodes.push(out.node->0),
        );
    }
}

/// A repetition of a body that matches wherever it is tried, such as an
/// optional match, fails for every input: the limit is what ends it.
pub proof fn lemma_rep_runs_into_limit(rep: Rep, ctx: Context, input: Seq<char>, st: State)
    requires
        forall|s: State| (#[trigger] rep.content.spec_parse(ctx, input, s)).matched(),
    ensures
        !rep.spec_parse(ctx, input, st).matched(),
        rep.spec_parse(ctx, input, st).state.pos == st.pos,
{
    lemma_rep_from_runs_into_limit(rep, ctx, input, st, 0, Seq::empty());
}

/// A signed index that denotes an index denotes one within the stack.
pub proof fn lemma_resolve_index(i: int, len: nat)
    ensures
        resolve_index(i, len) matches Some(index) ==> index <= len,
        resolve_index(i, len) is Some <==> -(len as int) <= i <= len,
        0 <= i <= len ==> resolve_index(i, len) == Some(i as nat),
        -(len as int) <= i < 0 ==> resolve_index(i, len) == Some((len + i) as nat),
{
}

/// A signed range that denotes a part of the stack has both its bounds
/// within the stack, so that the part can be taken without a check; the
/// part is empty where the bounds are reversed.
pub proof fn lemma_resolve_range(start: int, end: Option<int>, entries: Seq<SpanView>)
    ensures
        resolve_range(start, end, entries.len()) matches Some(bounds) ==> {
            &&& bounds.0 <= entries.len()
            &&& bounds.1 <= entries.len()
            &&& between(entries, bounds).len() == if bounds.0 < bounds.1 {
                bounds.1 - bounds.0
            } else {
                0
            }
        },
        end is None && resolve_index(start, entries.len()) is Some ==> resolve_range(
            start,
            end,
            entries.len(),
        ) is Some,
{
}

/// Whether nothing in the tree takes an entry off the stack.
pub open spec fn never_pops(matcher: Matcher) -> bool
    decreases matcher,
{
    match matcher {
        Matcher::Pop | Matcher::PopAll | Matcher::Drop => false,
        Matcher::Push(m) => never_pops(*m.content),
        Matcher::Positive(m) => never_pops(*m.content),
        Matcher::Negative(m) => never_pops(*m.content),
        Matcher::Opt(m) => never_pops(*m.content),
        Matcher::Rep(m) => never_pops(*m.content),
        Matcher::Restorable(m) => never_pops(*m.content),
        Matcher::Silent(m) => never_pops(*m.content),
        Matcher::Rule(m) => never_pops(*m.content),
        Matcher::AtomicRule(m) => never_pops(*m.content),
        Matcher::NonAtomicRule(m) => never_pops(*m.content),
        Matcher::Choice(m) => never_pops(*m.first) && never_pops(*m.second),
        Matcher::Sequence(m) => members_never_pop(m.content@, 0),
        _ => true,
    }
}

/// Whether nothing in the members from number `from` on takes an entry
/// off the stack.
pub open spec fn members_never_pop(members: Seq<Matcher>, from: nat) -> bool
    decreases members, members.len() - from,
{
    if from >= members.len() {
        true
    } else {
        never_pops(members[from as int]) && members_never_pop(members, from + 1)
    }
}

/// Whether nothing in the rules of insignificant text takes an entry off
/// the stack.
pub open spec fn skipping_never_pops(ctx: Context) -> bool {
    match ctx.ignored {
        Some(ign) => never_pops(ign.whitespace) && never_pops(ign.comment),
        None => true,
    }
}

/// A stack that grew from a stack that grew from a third has grown from
/// the third.
pub proof fn lemma_prefix_transitive<T>(a: Seq<T>, b: Seq<T>, c: Seq<T>)
    requires
        a.is_prefix_of(b),
        b.is_prefix_of(c),
    ensures
        a.is_prefix_of(c),
{
}

/// Every stack has grown from itself, and from what it was before an
/// entry was pushed.
pub proof fn lemma_prefix_reflexive<T>(a: Seq<T>)
    ensures
        a.is_prefix_of(a),
        forall|entry: T| a.is_prefix_of(#[trigger] a.push(entry)),
{
}

/// Skipping insignificant text whose rules take nothing off the stack
/// leaves what the stack held.
pub proof fn lemma_skip_only_grows(ign: Ign, ctx: Context, input: Seq<char>, st: State)
    requires
        never_pops(ign.whitespace),
        never_pops(ign.comment),
    ensures
        st.stack.is_prefix_of(ign.spec_skip(ctx, input, st).stack),
    decreases 1nat, ign, 1 + remaining(input, st),
{
    lemma_only_grows(ign.whitespace, ctx.spec_within_ignored(), input, st);
    let first = ign.whitespace.spec_parse(ctx.spec_within_ignored(), input, st).state;
    lemma_only_grows(ign.comment, ctx.spec_within_ignored(), input, first);
    let next = ign.comment.spec_parse(ctx.spec_within_ignored(), input, first).state;
    lemma_prefix_transitive(st.stack, first.stack, next.stack);
    if st.pos < next.pos <= input.len() {
        lemma_skip_only_grows(ign, ctx, input, next);
        lemma_prefix_transitive(st.stack, next.stack, ign.spec_skip(ctx, input, next).stack);
    }
}

/// Skipping insignificant text, where the context lets it be skipped at
/// all, leaves what the stack held.
pub proof fn lemma_ignore_only_grows(ign: Ign, ctx: Context, input: Seq<char>, st: State)
    requires
        never_pops(ign.whitespace),
        never_pops(ign.comment),
    ensures
        st.stack.is_prefix_of(ign.spec_parse(ctx, input, st).state.stack),
    decreases 1nat, ign, 2 + input.len(),
{
    lemma_prefix_reflexive(st.stack);
    if !ctx.atomic {
        lemma_skip_only_grows(ign, ctx, input, st);
    }
}

/// A repetition whose body takes nothing off the stack leaves what the
/// stack held.
pub proof fn lemma_rep_only_grows(
    rep: Rep,
    ctx: Context,
    input: Seq<char>,
    st: State,
    count: nat,
    nodes: Seq<NodeView>,
)
    requires
        never_pops(*rep.content),
        skipping_never_pops(ctx),
    ensures
        st.stack.is_prefix_of(rep.spec_from(ctx, input, st, count, nodes).state.stack),
    decreases ctx.level(), rep, 1 + ctx.repeat_limit - count,
{
    let ready = match ctx.ignored {
        Some(ign) => if count > 0 {
            ign.spec_parse(ctx, input, st).state
        } else {
            st
        },
        None => st,
    };
    lemma_prefix_reflexive(st.stack);
    match ctx.ignored {
        Some(ign) => {
            if count > 0 {
                lemma_ignore_only_grows(*ign, ctx, input, st);
            }
        },
        None => {},
    }
    lemma_only_grows(*rep.content, ctx, input, ready);
    let out = rep.content.spec_parse(ctx, input, ready);
    lemma_prefix_transitive(st.stack, ready.stack, out.state.stack);
    match out.node {
        Some(node) => {
            if count < ctx.repeat_limit {
                lemma_rep_only_grows(rep, ctx, input, out.state, count + 1, nodes.push(node));
                lemma_prefix_transitive(
                    st.stack,
                    out.state.stack,
                    rep.spec_from(ctx, input, out.state, count + 1, nodes.push(node)).state.stack,
                );
            }
        },
        None => {},
    }
}

/// A sequence whose members take nothing off the stack leaves what the
/// stack held.
pub proof fn lemma_sequence_only_grows(
    sequence: Sequence,
    ctx: Context,
    input: Seq<char>,
    st: State,
    next: nat,
    nodes: Seq<NodeView>,
)
    requires
        members_never_pop(sequence.content@, next),
        skipping_never_pops(ctx),
    ensures
        st.stack.is_prefix_of(sequence.spec_from(ctx, input, st, next, nodes).state.stack),
    decreases ctx.level(), sequence, sequence.content@.len() - next,
{
    lemma_prefix_reflexive(st.stack);
    if next < sequence.content@.len() {
        let ready = match ctx.ignored {
            Some(ign) => if next > 0 {
                ign.spec_parse(ctx, input, st).state
            } else {
                st
            },
            None => st,
        };
        match ctx.ignored {
            Some(ign) => {
                if next > 0 {
                    lemma_ignore_only_grows(*ign, ctx, input, st);
                }
            },
            None => {},
        }
        lemma_only_grows(sequence.content@[next as int], ctx, input, ready);
        let out = sequence.content@[next as int].spec_parse(ctx, input, ready);
        lemma_prefix_transitive(st.stack, ready.stack, out.state.stack);
        match out.node {
            Some(node) => {
                lemma_sequence_only_grows(
                    sequence,
                    ctx,
                    input,
                    out.state,
                    next + 1,
                    nodes.push(node),
                );
                lemma_prefix_transitive(
                    st.stack,
                    out.state.stack,
                    sequence.spec_from(
                        ctx,
                        input,
                        out.state,
                        next + 1,
                        nodes.push(node),
                    ).state.stack,
                );
            },
            None => {},
        }
    }
}

/// The body of a rule that takes nothing off the stack leaves what the
/// stack held.
pub proof fn lemma_rule_only_grows(
    id: RuleId,
    emission: Emission,
    content: Matcher,
    ctx: Context,
    input: Seq<char>,
    st: State,
)
    requires
        never_pops(content),
        skipping_never_pops(ctx),
    ensures
        st.stack.is_prefix_of(spec_rule(id, emission, content, ctx, input, st).state.stack),
    decreases ctx.level(), content, 1nat,
{
    lemma_only_grows(content, ctx, input, State { tracker: st.tracker.enter_rule(id), ..st });
}

/// Stack transactionality, whatever the grammar: a tree in which nothing
/// takes an entry off the stack leaves every entry that the stack held
/// where it was. What such a tree does to the stack is to push.
pub proof fn lemma_only_grows(matcher: Matcher, ctx: Context, input: Seq<char>, st: State)
    requires
        never_pops(matcher),
        skipping_never_pops(ctx),
    ensures
        st.stack.is_prefix_of(matcher.spec_parse(ctx, input, st).state.stack),
    decreases ctx.level(), matcher, 0nat,
{
    lemma_prefix_reflexive(st.stack);
    match matcher {
        Matcher::Push(m) => {
            lemma_only_grows(*m.content, ctx, input, st);
            let out = m.content.spec_parse(ctx, input, st);
            lemma_prefix_reflexive(out.state.stack);
            if out.matched() {
                lemma_prefix_transitive(
                    st.stack,
                    out.state.stack,
                    out.state.stack.push(st.span_to(input, out.state.pos)),
                );
            }
        },
        Matcher::Positive(m) => {
            let inner = State { tracker: st.tracker.with_mode(Some(true)), ..st };
            lemma_only_grows(*m.content, ctx, input, inner);
            lemma_truncated_extension(st.stack, m.content.spec_parse(ctx, input, inner).state.stack);
        },
        Matcher::Negative(m) => {
            let inner = State { tracker: st.tracker.with_mode(Some(false)), ..st };
            lemma_only_grows(*m.content, ctx, input, inner);
            lemma_truncated_extension(st.stack, m.content.spec_parse(ctx, input, inner).state.stack);
        },
        Matcher::Opt(m) => {
            lemma_only_grows(*m.content, ctx, input, st);
            lemma_truncated_extension(st.stack, m.content.spec_parse(ctx, input, st).state.stack);
        },
        Matcher::Restorable(m) => {
            lemma_only_grows(*m.content, ctx, input, st);
            lemma_truncated_extension(st.stack, m.content.spec_parse(ctx, input, st).state.stack);
        },
        Matcher::Silent(m) => {
            lemma_only_grows(
                *m.content,
                ctx,
                input,
                State { tracker: st.tracker.fork(st.at(input)), ..st },
            );
        },
        Matcher::Rep(m) => {
            lemma_rep_only_grows(m, ctx, input, st, 0, Seq::empty());
        },
        Matcher::Sequence(m) => {
            lemma_sequence_only_grows(m, ctx, input, st, 0, Seq::empty());
        },
        Matcher::Choice(m) => {
            lemma_only_grows(*m.first, ctx, input, st);
            let one = m.first.spec_parse(ctx, input, st);
            if !one.matched() {
                lemma_only_grows(*m.second, ctx, input, one.state);
                lemma_prefix_transitive(
                    st.stack,
                    one.state.stack,
                    m.second.spec_parse(ctx, input, one.state).state.stack,
                );
            }
        },
        Matcher::Rule(m) => {
            lemma_rule_only_grows(m.id, m.emission, *m.content, ctx, input, st);
        },
        Matcher::AtomicRule(m) => {
            lemma_rule_only_grows(
                m.id,
                m.emission,
                *m.content,
                ctx.spec_with_atomic(true),
                input,
                st,
            );
        },
        Matcher::NonAtomicRule(m) => {
            lemma_rule_only_grows(
                m.id,
                m.emission,
                *m.content,
                ctx.spec_with_atomic(false),
                input,
                st,
            );
        },
        Matcher::Ignored => {
            match ctx.ignored {
                Some(ign) => {
                    lemma_ignore_only_grows(*ign, ctx, input, st);
                },
                None => {},
            }
        },
        _ => {},
    }
}

/// A lookahead over a body that takes nothing off the stack leaves the
/// stack exactly as it was: what the body pushed is undone, whether the
/// lookahead holds or not.
pub proof fn lemma_lookahead_leaves_stack(
    body: Matcher,
    ctx: Context,
    input: Seq<char>,
    st: State,
)
    requires
        never_pops(body),
        skipping_never_pops(ctx),
    ensures
        (Positive { content: Box::new(body) }).spec_parse(ctx, input, st).state.stack == st.stack,
        (Negative { content: Box::new(body) }).spec_parse(ctx, input, st).state.stack == st.stack,
        (Positive { content: Box::new(body) }).spec_parse(ctx, input, st).state.pos == st.pos,
        (Negative { content: Box::new(body) }).spec_parse(ctx, input, st).state.pos == st.pos,
{
    lemma_only_grows(Matcher::Positive(Positive { content: Box::new(body) }), ctx, input, st);
    lemma_only_grows(Matcher::Negative(Negative { content: Box::new(body) }), ctx, input, st);
    lemma_positive(Positive { content: Box::new(body) }, ctx, input, st);
    lemma_negative(Negative { content: Box::new(body) }, ctx, input, st);
    let positive = State { tracker: st.tracker.with_mode(Some(true)), ..st };
    let negative = State { tracker: st.tracker.with_mode(Some(false)), ..st };
    lemma_only_grows(body, ctx, input, positive);
    lemma_only_grows(body, ctx, input, negative);
}

/// Whether two outcomes are the same match: the same node, the same
/// cursor and the same stack. The records of failures may differ.
pub open spec fn same_match(one: Outcome, two: Outcome) -> bool {
    &&& one.node == two.node
    &&& one.state.pos == two.state.pos
    &&& one.state.stack == two.state.stack
}

/// The same state with another record of failures.
pub open spec fn with_tracker(st: State, tracker: TrackerView) -> State {
    State { tracker, ..st }
}

/// How far a run of literal matches gets does not depend on the record
/// of failures.
pub proof fn lemma_run_blind(
    input: Seq<char>,
    pos: nat,
    tracker: TrackerView,
    other: TrackerView,
    entries: Seq<SpanView>,
)
    ensures
        match_entries(input, pos, tracker, entries).end == match_entries(
            input,
            pos,
            other,
            entries,
        ).end,
    decreases entries.len(),
{
    if entries.len() > 0 {
        let text = entries.last().text();
        if text.is_prefix_of(input.skip(pos as int)) {
            lemma_run_blind(input, pos + text.len(), tracker, other, entries.drop_last());
        }
    }
}

/// What skipping insignificant text does to the cursor and the stack
/// does not depend on the record of failures.
pub proof fn lemma_skip_blind(
    ign: Ign,
    ctx: Context,
    input: Seq<char>,
    st: State,
    other: TrackerView,
)
    ensures
        ign.spec_skip(ctx, input, st).pos == ign.spec_skip(
            ctx,
            input,
            with_tracker(st, other),
        ).pos,
        ign.spec_skip(ctx, input, st).stack == ign.spec_skip(
            ctx,
            input,
            with_tracker(st, other),
        ).stack,
    decreases 1nat, ign, 1 + remaining(input, st),
{
    let inner = ctx.spec_within_ignored();
    lemma_blind(ign.whitespace, inner, input, st, other);
    let first = ign.whitespace.spec_parse(inner, input, st).state;
    let first2 = ign.whitespace.spec_parse(inner, input, with_tracker(st, other)).state;
    lemma_blind(ign.comment, inner, input, first, first2.tracker);
    let next = ign.comment.spec_parse(inner, input, first).state;
    let next2 = ign.comment.spec_parse(inner, input, first2).state;
    if st.pos < next.pos <= input.len() {
        lemma_skip_blind(ign, ctx, input, next, next2.tracker);
    }
}

/// What a repetition matches does not depend on the record of failures.
pub proof fn lemma_rep_blind(
    rep: Rep,
    ctx: Context,
    input: Seq<char>,
    st: State,
    other: TrackerView,
    count: nat,
    nodes: Seq<NodeView>,
)
    ensures
        same_match(
            rep.spec_from(ctx, input, st, count, nodes),
            rep.spec_from(ctx, input, with_tracker(st, other), count, nodes),
        ),
    decreases ctx.level(), rep, 1 + ctx.repeat_limit - count,
{
    let st2 = with_tracker(st, other);
    let ready = match ctx.ignored {
        Some(ign) => if count > 0 {
            ign.spec_parse(ctx, input, st).state
        } else {
            st
        },
        None => st,
    };
    let ready2 = match ctx.ignored {
        Some(ign) => if count > 0 {
            ign.spec_parse(ctx, input, st2).state
        } else {
            st2
        },
        None => st2,
    };
    match ctx.ignored {
        Some(ign) => {
            if count > 0 && !ctx.atomic {
                lemma_skip_blind(*ign, ctx, input, st, other);
            }
        },
        None => {},
    }
    lemma_blind(*rep.content, ctx, input, ready, ready2.tracker);
    let out = rep.content.spec_parse(ctx, input, ready);
    let out2 = rep.content.spec_parse(ctx, input, ready2);
    match out.node {
        Some(node) => {
            if count < ctx.repeat_limit {
                lemma_rep_blind(
                    rep,
                    ctx,
                    input,
                    out.state,
                    out2.state.tracker,
                    count + 1,
                    nodes.push(node),
                );
            }
        },
        None => {},
    }
}

/// What a sequence matches does not depend on the record of failures.
pub proof fn lemma_sequence_blind(
    sequence: Sequence,
    ctx: Context,
    input: Seq<char>,
    st: State,
    other: TrackerView,
    next: nat,
    nodes: Seq<NodeView>,
)
    ensures
        same_match(
            sequence.spec_from(ctx, input, st, next, nodes),
            sequence.spec_from(ctx, input, with_tracker(st, other), next, nodes),
        ),
    decreases ctx.level(), sequence, sequence.content@.len() - next,
{
    if next < sequence.content@.len() {
        let st2 = with_tracker(st, other);
        let ready = match ctx.ignored {
            Some(ign) => if next > 0 {
                ign.spec_parse(ctx, input, st).state
            } else {
                st
            },
            None => st,
        };
        let ready2 = match ctx.ignored {
            Some(ign) => if next > 0 {
                ign.spec_parse(ctx, input, st2).state
            } else {
                st2
            },
            None => st2,
        };
        match ctx.ignored {
            Some(ign) => {
                if next > 0 && !ctx.atomic {
                    lemma_skip_blind(*ign, ctx, input, st, other);
                }
            },
            None => {},
        }
        lemma_blind(sequence.content@[next as int], ctx, input, ready, ready2.tracker);
        let out = sequence.content@[next as int].spec_parse(ctx, input, ready);
        let out2 = sequence.content@[next as int].spec_parse(ctx, input, ready2);
        match out.node {
            Some(node) => {
                lemma_sequence_blind(
                    sequence,
                    ctx,
                    input,
                    out.state,
                    out2.state.tracker,
                    next + 1,
                    nodes.push(node),
                );
            },
            None => {},
        }
    }
}

/// What the body of a rule matches does not depend on the record of
/// failures.
pub proof fn lemma_rule_blind(
    id: RuleId,
    emission: Emission,
    content: Matcher,
    ctx: Context,
    input: Seq<char>,
    st: State,
    other: TrackerView,
)
    ensures
        same_match(
            spec_rule(id, emission, content, ctx, input, st),
            spec_rule(id, emission, content, ctx, input, with_tracker(st, other)),
        ),
    decreases ctx.level(), content, 1nat,
{
    let inner = State { tracker: st.tracker.enter_rule(id), ..st };
    lemma_blind(content, ctx, input, inner, other.enter_rule(id));
    assert(with_tracker(inner, other.enter_rule(id)) == (State {
        tracker: with_tracker(st, other).tracker.enter_rule(id),
        ..with_tracker(st, other)
    }));
}

/// What a matcher that looks at the input and the stack alone matches
/// does not depend on the record of failures.
pub proof fn lemma_leaf_blind(
    matcher: Matcher,
    ctx: Context,
    input: Seq<char>,
    st: State,
    other: TrackerView,
)
    requires
        matcher is Str || matcher is Insens || matcher is Skip || matcher is SkipChar
            || matcher is CharRange || matcher is Any || matcher is Soi || matcher is Eoi
            || matcher is Newline || matcher is Peek || matcher is Pop || matcher is Drop
            || matcher is AlwaysFail || matcher is Empty,
    ensures
        same_match(
            matcher.spec_parse(ctx, input, st),
            matcher.spec_parse(ctx, input, with_tracker(st, other)),
        ),
{
    if matcher is Newline {
        lemma_newline_blind(ctx, input, st, other);
    }
}

/// What a line break matches does not depend on the record of failures.
pub proof fn lemma_newline_blind(ctx: Context, input: Seq<char>, st: State, other: TrackerView)
    ensures
        same_match(
            NEWLINE.spec_parse(ctx, input, st),
            NEWLINE.spec_parse(ctx, input, with_tracker(st, other)),
        ),
{
}

/// What a match against a part of the stack matches does not depend on
/// the record of failures.
pub proof fn lemma_slice_blind(
    input: Seq<char>,
    st: State,
    other: TrackerView,
    start: int,
    end: Option<int>,
)
    ensures
        same_match(
            peek_slice(input, st, start, end),
            peek_slice(input, with_tracker(st, other), start, end),
        ),
{
    match resolve_range(start, end, st.stack.len()) {
        Some(bounds) => {
            lemma_run_blind(input, st.pos, st.tracker, other, between(st.stack, bounds));
        },
        None => {},
    }
}

/// What a match against the whole stack matches does not depend on the
/// record of failures.
pub proof fn lemma_all_blind(ctx: Context, input: Seq<char>, st: State, other: TrackerView)
    ensures
        same_match(
            PEEK_ALL.spec_parse(ctx, input, st),
            PEEK_ALL.spec_parse(ctx, input, with_tracker(st, other)),
        ),
        same_match(
            POP_ALL.spec_parse(ctx, input, st),
            POP_ALL.spec_parse(ctx, input, with_tracker(st, other)),
        ),
{
    lemma_run_blind(input, st.pos, st.tracker, other, st.stack);
}

/// Failures are recorded, and never decide: whether a tree matches, what
/// node it yields, where the cursor ends up and what the stack holds are
/// the same whatever the record of failures held when the tree was
/// tried.
pub proof fn lemma_blind(
    matcher: Matcher,
    ctx: Context,
    input: Seq<char>,
    st: State,
    other: TrackerView,
)
    ensures
        same_match(
            matcher.spec_parse(ctx, input, st),
            matcher.spec_parse(ctx, input, with_tracker(st, other)),
        ),
    decreases ctx.level(), matcher, 0nat,
{
    let st2 = with_tracker(st, other);
    match matcher {
        Matcher::PeekAll => {
            lemma_all_blind(ctx, input, st, other);
        },
        Matcher::PopAll => {
            lemma_all_blind(ctx, input, st, other);
        },
        Matcher::PeekSlice1(m) => {
            lemma_slice_blind(input, st, other, m.start as int, None);
        },
        Matcher::PeekSlice2(m) => {
            lemma_slice_blind(input, st, other, m.start as int, Some(m.end as int));
        },
        Matcher::Push(m) => {
            lemma_blind(*m.content, ctx, input, st, other);
        },
        Matcher::Positive(m) => {
            let inner = State { tracker: st.tracker.with_mode(Some(true)), ..st };
            lemma_blind(*m.content, ctx, input, inner, other.with_mode(Some(true)));
            assert(with_tracker(inner, other.with_mode(Some(true))) == (State {
                tracker: st2.tracker.with_mode(Some(true)),
                ..st2
            }));
        },
        Matcher::Negative(m) => {
            let inner = State { tracker: st.tracker.with_mode(Some(false)), ..st };
            lemma_blind(*m.content, ctx, input, inner, other.with_mode(Some(false)));
            assert(with_tracker(inner, other.with_mode(Some(false))) == (State {
                tracker: st2.tracker.with_mode(Some(false)),
                ..st2
            }));
        },
        Matcher::Opt(m) => {
            lemma_blind(*m.content, ctx, input, st, other);
        },
        Matcher::Restorable(m) => {
            lemma_blind(*m.content, ctx, input, st, other);
        },
        Matcher::Silent(m) => {
            let quiet = State { tracker: st.tracker.fork(st.at(input)), ..st };
            lemma_blind(*m.content, ctx, input, quiet, other.fork(st.at(input)));
            assert(with_tracker(quiet, other.fork(st.at(input))) == (State {
                tracker: st2.tracker.fork(st2.at(input)),
                ..st2
            }));
        },
        Matcher::Rep(m) => {
            lemma_rep_blind(m, ctx, input, st, other, 0, Seq::empty());
        },
        Matcher::Sequence(m) => {
            lemma_sequence_blind(m, ctx, input, st, other, 0, Seq::empty());
        },
        Matcher::Choice(m) => {
            lemma_blind(*m.first, ctx, input, st, other);
            let one = m.first.spec_parse(ctx, input, st);
            let one2 = m.first.spec_parse(ctx, input, st2);
            if !one.matched() {
                lemma_blind(*m.second, ctx, input, one.state, one2.state.tracker);
            }
        },
        Matcher::Rule(m) => {
            lemma_rule_blind(m.id, m.emission, *m.content, ctx, input, st, other);
        },
        Matcher::AtomicRule(m) => {
            lemma_rule_blind(
                m.id,
                m.emission,
                *m.content,
                ctx.spec_with_atomic(true),
                input,
                st,
                other,
            );
        },
        Matcher::NonAtomicRule(m) => {
            lemma_rule_blind(
                m.id,
                m.emission,
                *m.content,
                ctx.spec_with_atomic(false),
                input,
                st,
                other,
            );
        },
        Matcher::Ignored => {
            match ctx.ignored {
                Some(ign) => {
                    if !ctx.atomic {
                        lemma_skip_blind(*ign, ctx, input, st, other);
                    }
                },
                None => {},
            }
        },
        _ => {
            lemma_leaf_blind(matcher, ctx, input, st, other);
        },
    }
}

} // verus!
