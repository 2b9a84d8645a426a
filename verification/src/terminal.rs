//! Matchers that look at the input alone.

use vstd::prelude::*;
use crate::error::FailureView;
use crate::node::MatchNode;
use crate::node::NewLineType;
use crate::node::NodeView;
use crate::position::common_prefix_len;
use crate::position::first_delimiter;
use crate::position::lemma_scalar_value;
use crate::position::fold_text;
use crate::position::texts;
use crate::position::Position;
use crate::position::PositionView;
use crate::span::Span;
use crate::stack::Stack;
use crate::state::lemma_match_text;
use crate::state::match_text;
use crate::state::Outcome;
use crate::state::State;
use crate::combinator::Context;
use crate::typed_node::NeverFailedParsableTypedNode;
use crate::typed_node::NeverFailedTypedNode;
use crate::typed_node::AlwaysFailed;
use crate::typed_node::TypedNode;
use crate::wrapper::StringArrayWrapper;
use crate::wrapper::StringWrapper;
use crate::tracker::lemma_record;
use crate::tracker::Tracker;
use crate::tracker::TrackerView;

verus! {

/// The characters of a string.
pub fn chars_of(s: &str) -> (res: Vec<char>)
    ensures
        res@ == s@,
{
    let mut res: Vec<char> = Vec::new();
    for c in it: s.chars()
        invariant
            res@ == it.seq().take(it.index() as int),
    {
        res.push(c);
    }
    res
}

/// The record after each of `literals` was recorded as unmatched at
/// `offset`, the first of them first.
pub open spec fn record_all(
    tracker: TrackerView,
    input: Seq<char>,
    literals: Seq<Seq<char>>,
    offset: nat,
) -> TrackerView
    decreases literals.len(),
{
    if literals.len() == 0 {
        tracker
    } else {
        record_all(tracker, input, literals.drop_last(), offset).record(
            FailureView::UnmatchedLiteral(literals.last()),
            PositionView { input, offset },
        )
    }
}

/// Matches a literal.
#[derive(Clone, Debug, PartialEq, Eq, Hash)]
pub struct Str {
    /// The literal to match.
    pub content: Vec<char>,
}

impl Str {
    /// The matcher of the literal `content`.
    pub fn new(content: &str) -> (res: Str)
        ensures
            res.content@ == content@,
    {
        Str { content: chars_of(content) }
    }

}

impl StringWrapper for Str {
    open spec fn spec_content(&self) -> Seq<char> {
        self.content@
    }

    fn content(&self) -> (res: &[char]) {
        self.content.as_slice()
    }
}

impl TypedNode for Str {
    /// The literal matches where the input ahead begins with it. Where it
    /// does not, the literal is recorded at the first character that
    /// differs.
    open spec fn spec_parse(&self, ctx: Context, input: Seq<char>, st: State) -> Outcome {
        let out = st.match_text(input, self.content@);
        if out.matched() {
            out.with_node(NodeView::Str(st.span_to(input, out.state.pos)))
        } else {
            out
        }
    }

    proof fn lemma_outcome(&self, ctx: Context, input: Seq<char>, st: State)
    {
        lemma_match_text(input, st, self.content@);
    }

    /// Matches the literal at `input`.
    fn try_parse_with<'i>(
        &self,
        ctx: Context<'_>,
        input: Position<'i>,
        stack: &mut Stack<Span<'i>>,
        tracker: &mut Tracker<'i>,
    ) -> (res: Option<(Position<'i>, MatchNode<'i>)>)
        ensures
            *final(stack) == *old(stack),
    {
        let mut end = input;
        if match_text(&mut end, self.content.as_slice(), tracker) {
            Some((end, MatchNode::Str(input.span_to(&end))))
        } else {
            None
        }
    }
}

/// Matches a literal without regard to the case of ASCII letters.
#[derive(Clone, Debug, PartialEq, Eq, Hash)]
pub struct Insens {
    /// The literal to match, in the case in which the grammar wrote it.
    pub content: Vec<char>,
}

impl Insens {
    /// The matcher of the literal `content`, whatever its case.
    pub fn new(content: &str) -> (res: Insens)
        ensures
            res.content@ == content@,
    {
        Insens { content: chars_of(content) }
    }

}

impl StringWrapper for Insens {
    open spec fn spec_content(&self) -> Seq<char> {
        self.content@
    }

    fn content(&self) -> (res: &[char]) {
        self.content.as_slice()
    }
}

impl TypedNode for Insens {
    /// The literal matches where, case put aside, the input ahead begins
    /// with it; the node holds the span of the text that stood there. Where
    /// it does not match, the literal is recorded at the first character
    /// that differs.
    open spec fn spec_parse(&self, ctx: Context, input: Seq<char>, st: State) -> Outcome {
        let rest = fold_text(st.rest(input));
        let literal = fold_text(self.content@);
        if literal.is_prefix_of(rest) {
            let end = st.pos + self.content@.len();
            st.accept(NodeView::Insens(st.span_to(input, end)), end)
        } else {
            st.fail(
                input,
                FailureView::UnmatchedLiteral(self.content@),
                st.pos + common_prefix_len(rest, literal),
            )
        }
    }

    proof fn lemma_outcome(&self, ctx: Context, input: Seq<char>, st: State)
    {
        lemma_record(
            st.tracker,
            FailureView::UnmatchedLiteral(self.content@),
            PositionView {
                input,
                offset: st.pos + common_prefix_len(
                    fold_text(st.rest(input)),
                    fold_text(self.content@),
                ),
            },
        );
    }

    /// Matches the literal at `input`.
    fn try_parse_with<'i>(
        &self,
        ctx: Context<'_>,
        input: Position<'i>,
        stack: &mut Stack<Span<'i>>,
        tracker: &mut Tracker<'i>,
    ) -> (res: Option<(Position<'i>, MatchNode<'i>)>)
        ensures
            *final(stack) == *old(stack),
    {
        let mut end = input;
        match end.match_literal_ci(self.content.as_slice()) {
            Some(span) => Some((end, MatchNode::Insens(span))),
            None => {
                let n = input.common_prefix_ci(self.content.as_slice());
                let mut far = input;
                far.skip(n);
                tracker.record_unmatched_literal(self.content.as_slice(), far);
                None
            },
        }
    }
}

/// Skips the input up to the nearest place at which one of several
/// delimiters begins.
#[derive(Clone, Debug, PartialEq, Eq, Hash)]
pub struct Skip {
    /// The delimiters to stop at.
    pub strings: Vec<Vec<char>>,
}

impl StringArrayWrapper for Skip {
    open spec fn spec_contents(&self) -> Seq<Vec<char>> {
        self.strings@
    }

    fn contents(&self) -> (res: &[Vec<char>]) {
        self.strings.as_slice()
    }
}

impl TypedNode for Skip {
    /// The match succeeds where a delimiter begins somewhere ahead, before
    /// the end of the input; the node holds the span of what lies before
    /// the nearest one, and the delimiter is not consumed. Where the input
    /// ends first, each delimiter is recorded as unmatched at the end of
    /// the input.
    open spec fn spec_parse(&self, ctx: Context, input: Seq<char>, st: State) -> Outcome {
        match first_delimiter(input, texts(self.strings@), st.pos) {
            Some(end) => st.accept(NodeView::Skip(st.span_to(input, end)), end),
            None => Outcome {
                node: None,
                state: State {
                    tracker: record_all(st.tracker, input, texts(self.strings@), input.len()),
                    ..st
                },
            },
        }
    }

    proof fn lemma_outcome(&self, ctx: Context, input: Seq<char>, st: State)
    {
        lemma_first_delimiter(input, texts(self.strings@), st.pos);
        lemma_record_all(st.tracker, input, texts(self.strings@), input.len());
    }

    /// Skips from `input` to the nearest delimiter.
    fn try_parse_with<'i>(
        &self,
        ctx: Context<'_>,
        input: Position<'i>,
        stack: &mut Stack<Span<'i>>,
        tracker: &mut Tracker<'i>,
    ) -> (res: Option<(Position<'i>, MatchNode<'i>)>)
        ensures
            *final(stack) == *old(stack),
    {
        let mut end = input;
        if end.skip_until(self.strings.as_slice()) {
            proof {
                lemma_first_delimiter(input@.input, texts(self.strings@), input@.offset);
            }
            Some((end, MatchNode::Skip(input.span_to(&end))))
        } else {
            let mut far = input;
            let rest = input.input().len() - input.pos();
            far.skip(rest);
            let ghost literals = texts(self.strings@);
            let mut k: usize = 0;
            while k < self.strings.len()
                invariant
                    k <= self.strings@.len(),
                    literals == texts(self.strings@),
                    far@ == (PositionView { input: input@.input, offset: input@.input.len() }),
                    tracker@ == record_all(
                        old(tracker)@,
                        input@.input,
                        literals.take(k as int),
                        input@.input.len(),
                    ),
                decreases self.strings@.len() - k,
            {
                tracker.record_unmatched_literal(self.strings[k].as_slice(), far);
                assert(literals.take(k + 1).drop_last() =~= literals.take(k as int));
                k = k + 1;
            }
            assert(literals.take(literals.len() as int) =~= literals);
            None
        }
    }
}

/// Recording literals one after the other moves the record on as
/// recording does.
pub proof fn lemma_record_all(
    tracker: TrackerView,
    input: Seq<char>,
    literals: Seq<Seq<char>>,
    offset: nat,
)
    ensures
        tracker.precedes(record_all(tracker, input, literals, offset)),
    decreases literals.len(),
{
    if literals.len() > 0 {
        lemma_record_all(tracker, input, literals.drop_last(), offset);
        lemma_record(
            record_all(tracker, input, literals.drop_last(), offset),
            FailureView::UnmatchedLiteral(literals.last()),
            PositionView { input, offset },
        );
    }
}

/// The nearest delimiter, where there is one, lies at or behind the
/// offset that the search started from, and before the end of the input.
pub proof fn lemma_first_delimiter(input: Seq<char>, delimiters: Seq<Seq<char>>, from: nat)
    ensures
        first_delimiter(input, delimiters, from) matches Some(at) ==> from <= at < input.len(),
    decreases input.len() - from,
{
    if from < input.len() {
        lemma_first_delimiter(input, delimiters, from + 1);
    }
}

/// Skips a fixed number of characters.
#[derive(Clone, Copy, Debug, PartialEq, Eq, Hash)]
pub struct SkipChar {
    /// How many characters to skip.
    pub n: usize,
}

impl TypedNode for SkipChar {
    /// The match succeeds where that many characters are ahead. Where they
    /// are not, a missing character is recorded at the end of the input.
    open spec fn spec_parse(&self, ctx: Context, input: Seq<char>, st: State) -> Outcome {
        if st.pos + self.n <= input.len() {
            let end = st.pos + self.n as nat;
            st.accept(NodeView::SkipChar(st.span_to(input, end)), end)
        } else {
            st.fail(input, FailureView::UnmatchedCharRange('\0', '\u{10ffff}'), input.len())
        }
    }

    proof fn lemma_outcome(&self, ctx: Context, input: Seq<char>, st: State)
    {
        lemma_record(
            st.tracker,
            FailureView::UnmatchedCharRange('\0', '\u{10ffff}'),
            PositionView { input, offset: input.len() },
        );
    }

    /// Skips the characters at `input`.
    fn try_parse_with<'i>(
        &self,
        ctx: Context<'_>,
        input: Position<'i>,
        stack: &mut Stack<Span<'i>>,
        tracker: &mut Tracker<'i>,
    ) -> (res: Option<(Position<'i>, MatchNode<'i>)>)
        ensures
            *final(stack) == *old(stack),
    {
        let mut end = input;
        if end.skip(self.n) {
            Some((end, MatchNode::SkipChar(input.span_to(&end))))
        } else {
            let mut far = input;
            let rest = input.input().len() - input.pos();
            far.skip(rest);
            tracker.record_unmatched_range('\0', '\u{10ffff}', far);
            None
        }
    }
}

/// Matches one character of an inclusive range.
#[derive(Clone, Copy, Debug, PartialEq, Eq, Hash)]
pub struct CharRange {
    /// The least character that matches.
    pub min: char,
    /// The greatest character that matches.
    pub max: char,
}

impl TypedNode for CharRange {
    /// The match succeeds where a character is ahead that lies between
    /// the bounds, both included; the node holds it. Where not, the range
    /// is recorded at the cursor.
    open spec fn spec_parse(&self, ctx: Context, input: Seq<char>, st: State) -> Outcome {
        if st.pos < input.len() && self.min <= input[st.pos as int] <= self.max {
            st.accept(NodeView::CharRange(input[st.pos as int]), st.pos + 1)
        } else {
            st.fail(input, FailureView::UnmatchedCharRange(self.min, self.max), st.pos)
        }
    }

    proof fn lemma_outcome(&self, ctx: Context, input: Seq<char>, st: State)
    {
        lemma_record(
            st.tracker,
            FailureView::UnmatchedCharRange(self.min, self.max),
            st.at(input),
        );
    }

    /// Matches the character at `input`.
    fn try_parse_with<'i>(
        &self,
        ctx: Context<'_>,
        input: Position<'i>,
        stack: &mut Stack<Span<'i>>,
        tracker: &mut Tracker<'i>,
    ) -> (res: Option<(Position<'i>, MatchNode<'i>)>)
        ensures
            *final(stack) == *old(stack),
    {
        let mut end = input;
        match end.match_char_in_range(self.min, self.max) {
            Some(c) => {
                proof {
                    lemma_scalar_value(c);
                }
                Some((end, MatchNode::CharRange(c)))
            },
            None => {
                tracker.record_unmatched_range(self.min, self.max, input);
                None
            },
        }
    }
}

/// Matches any one character.
#[derive(Clone, Copy, Debug, PartialEq, Eq, Hash)]
pub struct ANY;

impl TypedNode for ANY {
    /// The match succeeds where a character is ahead; the node holds it.
    /// At the end of the input a missing character is recorded.
    open spec fn spec_parse(&self, ctx: Context, input: Seq<char>, st: State) -> Outcome {
        if st.pos < input.len() {
            st.accept(NodeView::Any(input[st.pos as int]), st.pos + 1)
        } else {
            st.fail(input, FailureView::UnmatchedCharRange('\0', '\u{10ffff}'), st.pos)
        }
    }

    proof fn lemma_outcome(&self, ctx: Context, input: Seq<char>, st: State)
    {
        lemma_record(
            st.tracker,
            FailureView::UnmatchedCharRange('\0', '\u{10ffff}'),
            st.at(input),
        );
    }

    /// Matches the character at `input`.
    fn try_parse_with<'i>(
        &self,
        ctx: Context<'_>,
        input: Position<'i>,
        stack: &mut Stack<Span<'i>>,
        tracker: &mut Tracker<'i>,
    ) -> (res: Option<(Position<'i>, MatchNode<'i>)>)
        ensures
            *final(stack) == *old(stack),
    {
        let mut end = input;
        match end.match_any_char() {
            Some(c) => {
                proof {
                    lemma_scalar_value(c);
                }
                Some((end, MatchNode::Any(c)))
            },
            None => {
                tracker.record_unmatched_range('\0', '\u{10ffff}', input);
                None
            },
        }
    }
}

/// Matches the start of the input and consumes nothing.
#[derive(Clone, Copy, Debug, PartialEq, Eq, Hash)]
pub struct SOI;

impl TypedNode for SOI {
    /// The match succeeds at offset zero. Anywhere else a lookahead that
    /// did not hold is recorded at the cursor.
    open spec fn spec_parse(&self, ctx: Context, input: Seq<char>, st: State) -> Outcome {
        if st.pos == 0 {
            st.accept(NodeView::Soi, st.pos)
        } else {
            st.fail(input, FailureView::PredicateFailed { positive: true }, st.pos)
        }
    }

    proof fn lemma_outcome(&self, ctx: Context, input: Seq<char>, st: State)
    {
        lemma_record(st.tracker, FailureView::PredicateFailed { positive: true }, st.at(input));
    }

    /// Matches the start of the input at `input`.
    fn try_parse_with<'i>(
        &self,
        ctx: Context<'_>,
        input: Position<'i>,
        stack: &mut Stack<Span<'i>>,
        tracker: &mut Tracker<'i>,
    ) -> (res: Option<(Position<'i>, MatchNode<'i>)>)
        ensures
            *final(stack) == *old(stack),
    {
        if input.at_start() {
            Some((input, MatchNode::Soi))
        } else {
            tracker.record_predicate(true, input);
            None
        }
    }
}

/// Matches the end of the input and consumes nothing.
#[derive(Clone, Copy, Debug, PartialEq, Eq, Hash)]
pub struct EOI;

impl TypedNode for EOI {
    /// The match succeeds behind the last character. Anywhere else the
    /// input that must not follow is recorded at the cursor, as a negative
    /// lookahead that did not hold.
    open spec fn spec_parse(&self, ctx: Context, input: Seq<char>, st: State) -> Outcome {
        if st.pos == input.len() {
            st.accept(NodeView::Eoi, st.pos)
        } else {
            st.fail(input, FailureView::PredicateFailed { positive: false }, st.pos)
        }
    }

    proof fn lemma_outcome(&self, ctx: Context, input: Seq<char>, st: State)
    {
        lemma_record(st.tracker, FailureView::PredicateFailed { positive: false }, st.at(input));
    }

    /// Matches the end of the input at `input`.
    fn try_parse_with<'i>(
        &self,
        ctx: Context<'_>,
        input: Position<'i>,
        stack: &mut Stack<Span<'i>>,
        tracker: &mut Tracker<'i>,
    ) -> (res: Option<(Position<'i>, MatchNode<'i>)>)
        ensures
            *final(stack) == *old(stack),
    {
        if input.at_end() {
            Some((input, MatchNode::Eoi))
        } else {
            tracker.record_predicate(false, input);
            None
        }
    }
}

/// Matches a line break.
#[derive(Clone, Copy, Debug, PartialEq, Eq, Hash)]
pub struct NEWLINE;

impl TypedNode for NEWLINE {
    /// A carriage return followed by a line feed is tried first, then a
    /// line feed, then a carriage return, so that the pair is never split.
    /// The node says which of them matched. Each one that did not match is
    /// recorded as an unmatched literal.
    open spec fn spec_parse(&self, ctx: Context, input: Seq<char>, st: State) -> Outcome {
        let first = st.match_text(input, seq!['\r', '\n']);
        if first.matched() {
            first.with_node(NodeView::Newline(NewLineType::CRLF))
        } else {
            let second = first.state.match_text(input, seq!['\n']);
            if second.matched() {
                second.with_node(NodeView::Newline(NewLineType::LF))
            } else {
                let third = second.state.match_text(input, seq!['\r']);
                if third.matched() {
                    third.with_node(NodeView::Newline(NewLineType::CR))
                } else {
                    third
                }
            }
        }
    }

    proof fn lemma_outcome(&self, ctx: Context, input: Seq<char>, st: State)
    {
        lemma_match_text(input, st, seq!['\r', '\n']);
        let first = st.match_text(input, seq!['\r', '\n']);
        if !first.matched() {
            lemma_match_text(input, first.state, seq!['\n']);
            let second = first.state.match_text(input, seq!['\n']);
            if !second.matched() {
                lemma_match_text(input, second.state, seq!['\r']);
            }
        }
    }

    /// Matches a line break at `input`.
    fn try_parse_with<'i>(
        &self,
        ctx: Context<'_>,
        input: Position<'i>,
        stack: &mut Stack<Span<'i>>,
        tracker: &mut Tracker<'i>,
    ) -> (res: Option<(Position<'i>, MatchNode<'i>)>)
        ensures
            *final(stack) == *old(stack),
    {
        let crlf = ['\r', '\n'];
        let lf = ['\n'];
        let cr = ['\r'];
        assert(lf@ =~= seq!['\n']);
        assert(cr@ =~= seq!['\r']);
        let mut end = input;
        if match_text(&mut end, crlf.as_slice(), tracker) {
            Some((end, MatchNode::Newline(NewLineType::CRLF)))
        } else if match_text(&mut end, lf.as_slice(), tracker) {
            Some((end, MatchNode::Newline(NewLineType::LF)))
        } else if match_text(&mut end, cr.as_slice(), tracker) {
            Some((end, MatchNode::Newline(NewLineType::CR)))
        } else {
            None
        }
    }
}

/// Never matches.
#[derive(Clone, Copy, Debug, PartialEq, Eq, Hash)]
pub struct AlwaysFail;

impl TypedNode for AlwaysFail {
    /// The match fails and records nothing.
    open spec fn spec_parse(&self, ctx: Context, input: Seq<char>, st: State) -> Outcome {
        st.reject()
    }

    proof fn lemma_outcome(&self, ctx: Context, input: Seq<char>, st: State)
    {
    }

    /// Fails at `input`.
    fn try_parse_with<'i>(
        &self,
        ctx: Context<'_>,
        input: Position<'i>,
        stack: &mut Stack<Span<'i>>,
        tracker: &mut Tracker<'i>,
    ) -> (res: Option<(Position<'i>, MatchNode<'i>)>)
        ensures
            *final(stack) == *old(stack),
    {
        None
    }
}

impl AlwaysFailed for AlwaysFail {
    proof fn lemma_always_fails(&self, ctx: Context, input: Seq<char>, st: State) {
    }
}

/// Matches the empty text, everywhere.
#[derive(Clone, Copy, Debug, PartialEq, Eq, Hash)]
pub struct Empty;

impl TypedNode for Empty {
    /// The match succeeds and consumes nothing.
    open spec fn spec_parse(&self, ctx: Context, input: Seq<char>, st: State) -> Outcome {
        st.accept(NodeView::Empty, st.pos)
    }

    proof fn lemma_outcome(&self, ctx: Context, input: Seq<char>, st: State)
    {
    }

    /// Matches the empty text at `input`.
    fn try_parse_with<'i>(
        &self,
        ctx: Context<'_>,
        input: Position<'i>,
        stack: &mut Stack<Span<'i>>,
        tracker: &mut Tracker<'i>,
    ) -> (res: Option<(Position<'i>, MatchNode<'i>)>)
        ensures
            *final(stack) == *old(stack),
    {
        Some(self.parse_with(ctx, input, stack, tracker))
    }
}

impl NeverFailedParsableTypedNode for Empty {
}

impl NeverFailedTypedNode for Empty {
    proof fn lemma_never_fails(&self, ctx: Context, input: Seq<char>, st: State) {
    }

    /// Matches the empty text at `input`.
    fn parse_with<'i>(
        &self,
        ctx: Context<'_>,
        input: Position<'i>,
        stack: &mut Stack<Span<'i>>,
        tracker: &mut Tracker<'i>,
    ) -> (res: (Position<'i>, MatchNode<'i>))
        ensures
            *final(stack) == *old(stack),
    {
        (input, MatchNode::Empty)
    }
}

/// Moves `position` past one character where `pred` accepts it, and
/// returns the character.
pub fn match_char_by<F: FnOnce(char) -> bool>(position: &mut Position<'_>, pred: F) -> (res: Option<
    char,
>)
    requires
        forall|c: char| pred.requires((c,)),
    ensures
        match res {
            Some(c) => {
                &&& old(position)@.offset < old(position)@.input.len()
                &&& c == old(position)@.input[old(position)@.offset as int]
                &&& pred.ensures((c,), true)
                &&& final(position)@ == old(position)@.advance(1)
            },
            None => {
                &&& final(position)@ == old(position)@
                &&& old(position)@.offset < old(position)@.input.len() ==> pred.ensures(
                    (old(position)@.input[old(position)@.offset as int],),
                    false,
                )
            },
        },
{
    let at = position.pos();
    let input = position.input();
    if at < input.len() {
        let c = input[at];
        if pred(c) {
            position.skip(1);
            return Some(c);
        }
    }
    None
}

} // verus!
