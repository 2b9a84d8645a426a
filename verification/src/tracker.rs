//! The record of the furthest failure of a parse.

use vstd::prelude::*;
use crate::error::copy_chars;
use crate::error::failure_views;
use crate::error::Error;
use crate::error::ErrorView;
use crate::error::Failure;
use crate::error::FailureView;
use crate::error::RuleId;
use crate::position::clamp;
use crate::position::column_of;
use crate::position::line_of;
use crate::position::Position;
use crate::position::PositionView;

verus! {

/// A failure as it is recorded while a lookahead runs: inside a lookahead
/// every failure counts as a failure of that lookahead, whatever caused it.
pub open spec fn tag(cause: FailureView, mode: Option<bool>) -> FailureView {
    match mode {
        Some(positive) => FailureView::PredicateFailed { positive },
        None => cause,
    }
}

/// A failure nested in a chain of rules, the outermost rule first.
pub open spec fn nest(rules: Seq<RuleId>, cause: FailureView) -> FailureView
    decreases rules.len(),
{
    if rules.len() == 0 {
        cause
    } else {
        nest(rules.drop_last(), FailureView::NestedRuleFailure(rules.last(), Box::new(cause)))
    }
}

/// A list of labels with one more label, where the list does not hold it
/// yet.
pub open spec fn insert(labels: Seq<FailureView>, label: FailureView) -> Seq<FailureView> {
    if labels.contains(label) {
        labels
    } else {
        labels.push(label)
    }
}

/// The labels of `labels` followed by those of `more` that are new.
pub open spec fn union(labels: Seq<FailureView>, more: Seq<FailureView>) -> Seq<FailureView>
    decreases more.len(),
{
    if more.len() == 0 {
        labels
    } else {
        insert(union(labels, more.drop_last()), more.last())
    }
}

/// Mathematical model of a [`Tracker`].
pub struct TrackerView {
    /// The buffer that the furthest failure happened in.
    pub input: Seq<char>,
    /// Offset of the furthest failure.
    pub furthest: nat,
    /// What was expected at that offset, in the order in which it was
    /// recorded.
    pub expected: Seq<FailureView>,
    /// Whether the first failure at that offset was one of a lookahead.
    pub predicate: Option<bool>,
    /// The rules that are being matched, the outermost first.
    pub rules: Seq<RuleId>,
    /// The lookahead that is being matched: `Some(true)` for a positive
    /// one, `Some(false)` for a negative one.
    pub mode: Option<bool>,
}

impl TrackerView {
    /// No label occurs twice.
    pub open spec fn wf(self) -> bool {
        self.expected.no_duplicates()
    }

    /// What a failure is recorded as: tagged by the lookahead that is
    /// being matched, then nested in the rules that are being matched.
    pub open spec fn label(self, cause: FailureView) -> FailureView {
        nest(self.rules, tag(cause, self.mode))
    }

    /// Whether a failure at `offset` would change the record.
    pub open spec fn reaches(self, offset: nat) -> bool {
        offset >= self.furthest
    }

    /// Whether a failure at `offset` would replace what has been recorded.
    pub open spec fn surpasses(self, offset: nat) -> bool {
        offset > self.furthest || (offset == self.furthest && self.expected.len() == 0)
    }

    /// The record after a failure at `at`.
    ///
    /// A failure nearer than the furthest one is dropped. One at the same
    /// offset adds its label. One further on replaces what was recorded.
    pub open spec fn record(self, cause: FailureView, at: PositionView) -> TrackerView {
        if self.surpasses(at.offset) {
            TrackerView {
                input: at.input,
                furthest: at.offset,
                expected: seq![self.label(cause)],
                predicate: tag(cause, self.mode).polarity(),
                ..self
            }
        } else if at.offset == self.furthest {
            TrackerView { expected: insert(self.expected, self.label(cause)), ..self }
        } else {
            self
        }
    }

    /// The record that holds what both records hold: the one that reached
    /// further, and at equal offsets the labels of both.
    pub open spec fn merge(self, other: TrackerView) -> TrackerView {
        if other.expected.len() == 0 {
            self
        } else if self.surpasses(other.furthest) {
            TrackerView {
                input: other.input,
                furthest: other.furthest,
                expected: other.expected,
                predicate: other.predicate,
                ..self
            }
        } else if other.furthest == self.furthest {
            TrackerView { expected: union(self.expected, other.expected), ..self }
        } else {
            self
        }
    }

    /// The record with `rule` as the innermost rule being matched.
    pub open spec fn enter_rule(self, rule: RuleId) -> TrackerView {
        TrackerView { rules: self.rules.push(rule), ..self }
    }

    /// The record without the innermost rule being matched.
    pub open spec fn exit_rule(self) -> TrackerView {
        if self.rules.len() > 0 {
            TrackerView { rules: self.rules.drop_last(), ..self }
        } else {
            self
        }
    }

    /// The record with another lookahead being matched.
    pub open spec fn with_mode(self, mode: Option<bool>) -> TrackerView {
        TrackerView { mode, ..self }
    }

    /// A record that has no failure yet and starts at `at`, with the
    /// rules and the lookahead that are being matched in this one.
    pub open spec fn fork(self, at: PositionView) -> TrackerView {
        TrackerView {
            input: at.input,
            furthest: at.offset,
            expected: Seq::empty(),
            predicate: None,
            rules: self.rules,
            mode: self.mode,
        }
    }

    /// Whether `later` can come of this record in the course of a parse:
    /// the furthest failure has not retreated, the rules and the lookahead
    /// being matched are the same, and no label has come to occur twice.
    pub open spec fn precedes(self, later: TrackerView) -> bool {
        &&& self.furthest <= later.furthest
        &&& later.rules == self.rules
        &&& later.mode == self.mode
        &&& self.wf() ==> later.wf()
    }

    /// The record of a parse of `input` that has not failed anywhere yet.
    pub open spec fn start(input: Seq<char>) -> TrackerView {
        TrackerView {
            input,
            furthest: 0,
            expected: Seq::empty(),
            predicate: None,
            rules: Seq::empty(),
            mode: None,
        }
    }

    /// The error that the record amounts to: the offset of the furthest
    /// failure, its line and column, and what was expected there.
    pub open spec fn error(self) -> ErrorView {
        ErrorView {
            offset: self.furthest,
            line: clamp(line_of(self.input, self.furthest)) as nat,
            column: clamp(column_of(self.input, self.furthest)) as nat,
            expected: self.expected,
            predicate: self.predicate,
        }
    }
}

/// The furthest failure of a parse, and what was expected there.
#[derive(Debug)]
pub struct Tracker<'i> {
    position: Position<'i>,
    attempts: Vec<Failure>,
    flag: Option<bool>,
    rules: Vec<RuleId>,
    mode: Option<bool>,
}

impl<'i> View for Tracker<'i> {
    type V = TrackerView;

    closed spec fn view(&self) -> TrackerView {
        TrackerView {
            input: self.position@.input,
            furthest: self.position@.offset,
            expected: failure_views(self.attempts@),
            predicate: self.flag,
            rules: self.rules@,
            mode: self.mode,
        }
    }
}

impl<'i> Tracker<'i> {
    /// A record without failures, for a parse that starts at `position`.
    pub fn new(position: Position<'i>) -> (res: Tracker<'i>)
        ensures
            res@ == (TrackerView {
                input: position@.input,
                furthest: position@.offset,
                expected: Seq::empty(),
                predicate: None,
                rules: Seq::empty(),
                mode: None,
            }),
    {
        let res = Tracker {
            position,
            attempts: Vec::new(),
            flag: None,
            rules: Vec::new(),
            mode: None,
        };
        assert(failure_views(res.attempts@) =~= Seq::empty());
        res
    }

    /// A record without failures for an attempt that starts at
    /// `position` and whose failures are to be kept apart from this
    /// record. The rules and the lookahead being matched are taken over.
    pub fn fork(&self, position: Position<'i>) -> (res: Tracker<'i>)
        ensures
            res@ == self@.fork(position@),
    {
        let mut rules: Vec<RuleId> = Vec::new();
        let mut i: usize = 0;
        while i < self.rules.len()
            invariant
                i <= self.rules@.len(),
                rules@ == self.rules@.take(i as int),
            decreases self.rules@.len() - i,
        {
            rules.push(self.rules[i]);
            i = i + 1;
        }
        assert(self.rules@.take(self.rules@.len() as int) =~= self.rules@);
        let res = Tracker { position, attempts: Vec::new(), flag: None, rules, mode: self.mode };
        assert(failure_views(res.attempts@) =~= Seq::empty());
        res
    }

    /// The position of the furthest failure.
    pub fn position(&self) -> (res: Position<'i>)
        ensures
            res@.input == self@.input,
            res@.offset == self@.furthest,
    {
        self.position
    }

    /// What was expected at the furthest failure.
    pub fn expected(&self) -> (res: &[Failure])
        ensures
            failure_views(res@) == self@.expected,
    {
        self.attempts.as_slice()
    }

    /// Whether a failure at `position` would change the record. A caller
    /// may use this to spare itself the making of a failure that would be
    /// dropped.
    pub fn reaches(&self, position: &Position<'i>) -> (res: bool)
        ensures
            res == self@.reaches(position@.offset),
    {
        position.pos() >= self.position.pos()
    }

    /// What `cause` is recorded as while the rules and the lookahead of
    /// this moment are being matched.
    pub fn label(&self, cause: Failure) -> (res: Failure)
        ensures
            res@ == self@.label(cause@),
    {
        let ghost goal = self@.label(cause@);
        let mut label = match self.mode {
            Some(positive) => Failure::PredicateFailed { positive },
            None => cause,
        };
        let mut i: usize = self.rules.len();
        assert(self.rules@.take(i as int) =~= self.rules@);
        while i > 0
            invariant
                i <= self.rules@.len(),
                nest(self.rules@.take(i as int), label@) == goal,
            decreases i,
        {
            i = i - 1;
            assert(self.rules@.take(i + 1).drop_last() =~= self.rules@.take(i as int));
            label = Failure::NestedRuleFailure(self.rules[i], Box::new(label));
        }
        label
    }

    /// Adds `label` to what is expected, where it is not there yet.
    fn add(&mut self, label: Failure)
        ensures
            final(self)@ == (TrackerView {
                expected: insert(old(self)@.expected, label@),
                ..old(self)@
            }),
    {
        let ghost before = failure_views(self.attempts@);
        let mut i: usize = 0;
        while i < self.attempts.len()
            invariant
                i <= self.attempts@.len(),
                *self == *old(self),
                before == failure_views(self.attempts@),
                forall|k: int| 0 <= k < i ==> before[k] != label@,
            decreases self.attempts@.len() - i,
        {
            if self.attempts[i].same(&label) {
                assert(before[i as int] == label@);
                return ;
            }
            i = i + 1;
        }
        self.attempts.push(label);
        assert(failure_views(self.attempts@) =~= before.push(label@));
    }

    /// Records that `cause` made a match fail at `position`.
    pub fn record_fail(&mut self, cause: Failure, position: Position<'i>)
        ensures
            final(self)@ == old(self)@.record(cause@, position@),
    {
        let offset = position.pos();
        let furthest = self.position.pos();
        if offset > furthest || (offset == furthest && self.attempts.len() == 0) {
            let flag = match self.mode {
                Some(positive) => Some(positive),
                None => match &cause {
                    Failure::PredicateFailed { positive } => Some(*positive),
                    _ => None,
                },
            };
            let label = self.label(cause);
            self.flag = flag;
            self.position = position;
            let mut attempts: Vec<Failure> = Vec::new();
            attempts.push(label);
            self.attempts = attempts;
            assert(failure_views(self.attempts@) =~= seq![label@]);
        } else if offset == furthest {
            let label = self.label(cause);
            self.add(label);
        }
    }

    /// Records that the input at `position` did not continue with
    /// `literal`.
    pub fn record_unmatched_literal(&mut self, literal: &[char], position: Position<'i>)
        ensures
            final(self)@ == old(self)@.record(FailureView::UnmatchedLiteral(literal@), position@),
    {
        if self.reaches(&position) {
            self.record_fail(Failure::UnmatchedLiteral(copy_chars(literal)), position);
        }
    }

    /// Records that the input at `position` did not continue with a
    /// character of `min..=max`.
    pub fn record_unmatched_range(&mut self, min: char, max: char, position: Position<'i>)
        ensures
            final(self)@ == old(self)@.record(
                FailureView::UnmatchedCharRange(min, max),
                position@,
            ),
    {
        self.record_fail(Failure::UnmatchedCharRange(min, max), position);
    }

    /// Records that a lookahead did not hold at `position`.
    pub fn record_predicate(&mut self, positive: bool, position: Position<'i>)
        ensures
            final(self)@ == old(self)@.record(FailureView::PredicateFailed { positive }, position@),
    {
        self.record_fail(Failure::PredicateFailed { positive }, position);
    }

    /// Records that a backreference was asked for at `position` while the
    /// stack was empty.
    pub fn record_empty_stack(&mut self, position: Position<'i>)
        ensures
            final(self)@ == old(self)@.record(FailureView::EmptyStack, position@),
    {
        self.record_fail(Failure::EmptyStack, position);
    }

    /// Records that the range `start..end` denoted no part of the stack
    /// at `position`.
    pub fn record_out_of_bound(&mut self, start: i32, end: Option<i32>, position: Position<'i>)
        ensures
            final(self)@ == old(self)@.record(
                (Failure::SliceOutOfBound(start, end))@,
                position@,
            ),
    {
        self.record_fail(Failure::SliceOutOfBound(start, end), position);
    }

    /// Records that a repetition went over its limit at `position`.
    pub fn record_repeat_limit(&mut self, position: Position<'i>)
        ensures
            final(self)@ == old(self)@.record(FailureView::RepeatLimitExceeded, position@),
    {
        self.record_fail(Failure::RepeatLimitExceeded, position);
    }

    /// Makes `rule` the innermost rule being matched.
    pub fn enter_rule(&mut self, rule: RuleId)
        ensures
            final(self)@ == old(self)@.enter_rule(rule),
    {
        self.rules.push(rule);
    }

    /// Leaves the innermost rule being matched.
    pub fn exit_rule(&mut self)
        ensures
            final(self)@ == old(self)@.exit_rule(),
    {
        self.rules.pop();
    }

    /// Makes `mode` the lookahead being matched and returns the one that
    /// was.
    pub fn set_mode(&mut self, mode: Option<bool>) -> (res: Option<bool>)
        ensures
            res == old(self)@.mode,
            final(self)@ == old(self)@.with_mode(mode),
    {
        let res = self.mode;
        self.mode = mode;
        res
    }

    /// Runs `f` as the body of a positive lookahead: what it records
    /// counts as a failure of the lookahead.
    pub fn run_positive<T, F: FnOnce(&mut Tracker<'i>) -> T>(&mut self, f: F) -> (res: T)
        requires
            forall|t: &mut Tracker<'i>| f.requires((t,)),
        ensures
            exists|t: &mut Tracker<'i>|
                t@ == old(self)@.with_mode(Some(true)) && f.ensures((t,), res) && final(self)@
                    == final(t)@.with_mode(old(self)@.mode),
    {
        let saved = self.set_mode(Some(true));
        let res = f(self);
        self.mode = saved;
        res
    }

    /// Runs `f` as the body of a negative lookahead: what it records
    /// counts as a failure of the lookahead.
    pub fn run_negative<T, F: FnOnce(&mut Tracker<'i>) -> T>(&mut self, f: F) -> (res: T)
        requires
            forall|t: &mut Tracker<'i>| f.requires((t,)),
        ensures
            exists|t: &mut Tracker<'i>|
                t@ == old(self)@.with_mode(Some(false)) && f.ensures((t,), res) && final(self)@
                    == final(t)@.with_mode(old(self)@.mode),
    {
        let saved = self.set_mode(Some(false));
        let res = f(self);
        self.mode = saved;
        res
    }

    /// Takes over what `other` recorded: the failure that reached further
    /// stays, and at equal offsets the labels of both stay.
    pub fn merge(&mut self, other: Tracker<'i>)
        ensures
            final(self)@ == old(self)@.merge(other@),
    {
        let offset = other.position.pos();
        let furthest = self.position.pos();
        if other.attempts.len() == 0 {
            return ;
        }
        if offset > furthest || (offset == furthest && self.attempts.len() == 0) {
            self.position = other.position;
            self.flag = other.flag;
            self.attempts = other.attempts;
        } else if offset == furthest {
            let ghost more = failure_views(other.attempts@);
            let ghost start = self@;
            let mut i: usize = 0;
            while i < other.attempts.len()
                invariant
                    i <= other.attempts@.len(),
                    more == failure_views(other.attempts@),
                    self@ == (TrackerView {
                        expected: union(start.expected, more.take(i as int)),
                        ..start
                    }),
                decreases other.attempts@.len() - i,
            {
                let label = other.attempts[i].duplicate();
                self.add(label);
                assert(more.take(i + 1).drop_last() =~= more.take(i as int));
                i = i + 1;
            }
            assert(more.take(more.len() as int) =~= more);
        }
    }

    /// The error that the record amounts to.
    pub fn finish(self) -> (res: Error)
        ensures
            res@ == self@.error(),
    {
        let (line, column) = self.position.line_col();
        Error {
            offset: self.position.pos(),
            line,
            column,
            expected: self.attempts,
            predicate: self.flag,
        }
    }
}

/// A list without a label that occurs twice stays so when a label is
/// inserted.
pub proof fn lemma_insert_keeps_distinct(labels: Seq<FailureView>, label: FailureView)
    requires
        labels.no_duplicates(),
    ensures
        insert(labels, label).no_duplicates(),
        insert(labels, label).contains(label),
        forall|l: FailureView| labels.contains(l) ==> insert(labels, label).contains(l),
{
    let after = insert(labels, label);
    if !labels.contains(label) {
        assert(after[labels.len() as int] == label);
        assert forall|l: FailureView| labels.contains(l) implies after.contains(l) by {
            let k = choose|k: int| 0 <= k < labels.len() && labels[k] == l;
            assert(after[k] == l);
        }
    }
}

/// The union of two lists holds every label of both, and none twice where
/// the first list held none twice.
pub proof fn lemma_union(labels: Seq<FailureView>, more: Seq<FailureView>)
    requires
        labels.no_duplicates(),
    ensures
        union(labels, more).no_duplicates(),
        forall|l: FailureView| labels.contains(l) ==> union(labels, more).contains(l),
        forall|l: FailureView| more.contains(l) ==> union(labels, more).contains(l),
    decreases more.len(),
{
    if more.len() > 0 {
        let before = union(labels, more.drop_last());
        lemma_union(labels, more.drop_last());
        lemma_insert_keeps_distinct(before, more.last());
        assert forall|l: FailureView| more.contains(l) implies union(labels, more).contains(
            l,
        ) by {
            let k = choose|k: int| 0 <= k < more.len() && more[k] == l;
            if k < more.len() - 1 {
                assert(more.drop_last()[k] == l);
                assert(more.drop_last().contains(l));
            }
        }
    }
}

/// Recording a failure never lets the furthest failure retreat, leaves the
/// rules and the lookahead being matched alone, and keeps the labels
/// distinct.
pub proof fn lemma_record(tracker: TrackerView, cause: FailureView, at: PositionView)
    ensures
        tracker.precedes(tracker.record(cause, at)),
        tracker.record(cause, at).furthest == if at.offset > tracker.furthest {
            at.offset
        } else {
            tracker.furthest
        },
        at.offset >= tracker.furthest ==> tracker.record(cause, at).expected.contains(
            tracker.label(cause),
        ),
{
    let label = tracker.label(cause);
    if tracker.surpasses(at.offset) {
        assert(seq![label][0] == label);
    } else if at.offset == tracker.furthest {
        if tracker.wf() {
            lemma_insert_keeps_distinct(tracker.expected, label);
        }
        if !tracker.expected.contains(label) {
            assert(tracker.expected.push(label)[tracker.expected.len() as int] == label);
        }
    }
}

/// A failure nearer than the furthest one changes nothing.
pub proof fn lemma_record_nearer(tracker: TrackerView, cause: FailureView, at: PositionView)
    requires
        at.offset < tracker.furthest,
    ensures
        tracker.record(cause, at) == tracker,
{
}

/// A failure further than the furthest one replaces what was expected.
pub proof fn lemma_record_further(tracker: TrackerView, cause: FailureView, at: PositionView)
    requires
        at.offset > tracker.furthest,
    ensures
        tracker.record(cause, at).furthest == at.offset,
        tracker.record(cause, at).expected == seq![tracker.label(cause)],
        tracker.record(cause, at).predicate == tag(cause, tracker.mode).polarity(),
{
}

/// A failure at the offset of the furthest one keeps what was expected
/// and adds its own label.
pub proof fn lemma_record_same(tracker: TrackerView, cause: FailureView, at: PositionView)
    requires
        at.offset == tracker.furthest,
        tracker.expected.len() > 0,
    ensures
        tracker.record(cause, at).furthest == tracker.furthest,
        tracker.record(cause, at).predicate == tracker.predicate,
        tracker.record(cause, at).expected.contains(tracker.label(cause)),
        forall|l: FailureView|
            tracker.expected.contains(l) ==> tracker.record(cause, at).expected.contains(l),
{
    let label = tracker.label(cause);
    let after = tracker.record(cause, at).expected;
    if !tracker.expected.contains(label) {
        assert(after[tracker.expected.len() as int] == label);
        assert forall|l: FailureView| tracker.expected.contains(l) implies after.contains(l) by {
            let k = choose|k: int| 0 <= k < tracker.expected.len() && tracker.expected[k] == l;
            assert(after[k] == l);
        }
    }
}

/// Merging keeps the record that reached further, and at equal offsets
/// the labels of both.
pub proof fn lemma_merge(tracker: TrackerView, other: TrackerView)
    requires
        tracker.wf(),
        other.wf(),
    ensures
        tracker.precedes(tracker.merge(other)),
        other.expected.len() > 0 ==> tracker.merge(other).furthest >= other.furthest,
        other.expected.len() > 0 && other.furthest >= tracker.furthest ==> forall|l: FailureView|
            other.expected.contains(l) ==> tracker.merge(other).expected.contains(l),
        other.furthest <= tracker.furthest ==> forall|l: FailureView|
            tracker.expected.contains(l) ==> tracker.merge(other).expected.contains(l),
{
    lemma_union(tracker.expected, other.expected);
}

/// Recording a failure is merging a record that holds this one failure:
/// a record that was forked off, and in which the failure was recorded,
/// brings to the record it is merged into what the failure itself would
/// have brought. So alternatives that record into a shared record leave
/// what the merge of their own records would leave.
pub proof fn lemma_record_is_merge(
    tracker: TrackerView,
    cause: FailureView,
    at: PositionView,
    from: PositionView,
)
    requires
        from.offset <= at.offset,
    ensures
        tracker.merge(tracker.fork(from).record(cause, at)) == tracker.record(cause, at),
{
    let label = tracker.label(cause);
    assert(union(tracker.expected, seq![label].drop_last()) == tracker.expected);
}

/// A failure nested in rules names those rules, the outermost first, and
/// keeps its cause.
pub proof fn lemma_nest(rules: Seq<RuleId>, cause: FailureView)
    ensures
        nest(rules, cause).rules() == rules + cause.rules(),
        nest(rules, cause).cause() == cause.cause(),
    decreases rules.len(),
{
    if rules.len() > 0 {
        let inner = FailureView::NestedRuleFailure(rules.last(), Box::new(cause));
        lemma_nest(rules.drop_last(), inner);
        assert(rules.drop_last() + (seq![rules.last()] + cause.rules()) =~= rules
            + cause.rules());
    }
}

} // verus!
