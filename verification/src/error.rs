//! What a failed match is reported as.

use vstd::prelude::*;
use crate::span::equal_chars;

verus! {

/// Identity of a grammar rule.
pub type RuleId = u32;

/// Why a matcher did not match.
#[derive(Debug, PartialEq, Eq, Hash)]
pub enum Failure {
    /// The input did not continue with this literal.
    UnmatchedLiteral(Vec<char>),
    /// The input did not continue with a character between these two,
    /// both included.
    UnmatchedCharRange(char, char),
    /// A lookahead did not hold: a positive one found no match, a negative
    /// one found a match.
    PredicateFailed { positive: bool },
    /// A backreference was asked for while the stack was empty.
    EmptyStack,
    /// A signed range did not denote a part of the stack.
    SliceOutOfBound(i32, Option<i32>),
    /// A repetition matched more often than its limit allows.
    RepeatLimitExceeded,
    /// A failure that happened inside the named rule.
    NestedRuleFailure(RuleId, Box<Failure>),
}

/// Mathematical model of a [`Failure`].
pub enum FailureView {
    UnmatchedLiteral(Seq<char>),
    UnmatchedCharRange(char, char),
    PredicateFailed { positive: bool },
    EmptyStack,
    SliceOutOfBound(int, Option<int>),
    RepeatLimitExceeded,
    NestedRuleFailure(RuleId, Box<FailureView>),
}

impl FailureView {
    /// The failure without the rules that it is nested in.
    pub open spec fn cause(self) -> FailureView
        decreases self,
    {
        match self {
            FailureView::NestedRuleFailure(_, inner) => inner.cause(),
            _ => self,
        }
    }

    /// The rules that the failure is nested in, the outermost first.
    pub open spec fn rules(self) -> Seq<RuleId>
        decreases self,
    {
        match self {
            FailureView::NestedRuleFailure(rule, inner) => seq![rule] + inner.rules(),
            _ => Seq::empty(),
        }
    }

    /// Whether the failure is one of a lookahead, and of which.
    pub open spec fn polarity(self) -> Option<bool> {
        match self {
            FailureView::PredicateFailed { positive } => Some(positive),
            _ => None,
        }
    }
}

impl Failure {
    /// The model of the failure.
    pub open spec fn model(self) -> FailureView
        decreases self,
    {
        match self {
            Failure::UnmatchedLiteral(literal) => FailureView::UnmatchedLiteral(literal@),
            Failure::UnmatchedCharRange(min, max) => FailureView::UnmatchedCharRange(min, max),
            Failure::PredicateFailed { positive } => FailureView::PredicateFailed { positive },
            Failure::EmptyStack => FailureView::EmptyStack,
            Failure::SliceOutOfBound(start, end) => FailureView::SliceOutOfBound(
                start as int,
                match end {
                    Some(e) => Some(e as int),
                    None => None,
                },
            ),
            Failure::RepeatLimitExceeded => FailureView::RepeatLimitExceeded,
            Failure::NestedRuleFailure(rule, inner) => FailureView::NestedRuleFailure(
                rule,
                Box::new((*inner).model()),
            ),
        }
    }
}

impl View for Failure {
    type V = FailureView;

    open spec fn view(&self) -> FailureView {
        self.model()
    }
}

/// The models of a list of failures.
pub open spec fn failure_views(failures: Seq<Failure>) -> Seq<FailureView> {
    Seq::new(failures.len(), |k: int| failures[k]@)
}

/// A copy of a text.
pub fn copy_chars(text: &[char]) -> (res: Vec<char>)
    ensures
        res@ == text@,
{
    let mut res: Vec<char> = Vec::new();
    let mut i: usize = 0;
    while i < text.len()
        invariant
            i <= text@.len(),
            res@ == text@.take(i as int),
        decreases text@.len() - i,
    {
        res.push(text[i]);
        i = i + 1;
    }
    res
}

impl Failure {
    /// Whether two failures have the same model.
    pub fn same(&self, other: &Failure) -> (res: bool)
        ensures
            res == (self@ == other@),
        decreases self,
    {
        match (self, other) {
            (Failure::UnmatchedLiteral(a), Failure::UnmatchedLiteral(b)) => equal_chars(
                a.as_slice(),
                b.as_slice(),
            ),
            (Failure::UnmatchedCharRange(a, b), Failure::UnmatchedCharRange(c, d)) => *a == *c
                && *b == *d,
            (Failure::PredicateFailed { positive: a }, Failure::PredicateFailed { positive: b }) => *a
                == *b,
            (Failure::EmptyStack, Failure::EmptyStack) => true,
            (Failure::SliceOutOfBound(a, b), Failure::SliceOutOfBound(c, d)) => *a == *c && match (
                b,
                d,
            ) {
                (Some(x), Some(y)) => *x == *y,
                (None, None) => true,
                _ => false,
            },
            (Failure::RepeatLimitExceeded, Failure::RepeatLimitExceeded) => true,
            (Failure::NestedRuleFailure(a, x), Failure::NestedRuleFailure(b, y)) => *a == *b
                && x.same(y),
            _ => false,
        }
    }

    /// A copy with the same model.
    pub fn duplicate(&self) -> (res: Failure)
        ensures
            res@ == self@,
        decreases self,
    {
        match self {
            Failure::UnmatchedLiteral(literal) => Failure::UnmatchedLiteral(
                copy_chars(literal.as_slice()),
            ),
            Failure::UnmatchedCharRange(min, max) => Failure::UnmatchedCharRange(*min, *max),
            Failure::PredicateFailed { positive } => Failure::PredicateFailed {
                positive: *positive,
            },
            Failure::EmptyStack => Failure::EmptyStack,
            Failure::SliceOutOfBound(start, end) => Failure::SliceOutOfBound(*start, *end),
            Failure::RepeatLimitExceeded => Failure::RepeatLimitExceeded,
            Failure::NestedRuleFailure(rule, inner) => Failure::NestedRuleFailure(
                *rule,
                Box::new(inner.duplicate()),
            ),
        }
    }

    /// The failure without the rules that it is nested in.
    pub fn cause(&self) -> (res: &Failure)
        ensures
            res@ == self@.cause(),
        decreases self,
    {
        match self {
            Failure::NestedRuleFailure(_, inner) => inner.cause(),
            _ => self,
        }
    }

    /// The rules that the failure is nested in, the outermost first.
    pub fn rules(&self) -> (res: Vec<RuleId>)
        ensures
            res@ == self@.rules(),
    {
        let mut res: Vec<RuleId> = Vec::new();
        let mut at: &Failure = self;
        loop
            invariant
                res@ + at@.rules() == self@.rules(),
            decreases at,
        {
            match at {
                Failure::NestedRuleFailure(rule, inner) => {
                    res.push(*rule);
                    at = inner;
                },
                _ => {
                    return res;
                },
            }
        }
    }
}

impl Clone for Failure {
    fn clone(&self) -> (res: Failure)
        ensures
            res@ == self@,
    {
        self.duplicate()
    }
}

/// What a failed parse is reported as: where the furthest failure
/// happened, and what was expected there.
#[derive(Clone, Debug, PartialEq, Eq)]
pub struct Error {
    /// Offset of the furthest failure.
    pub offset: usize,
    /// One-based line of that offset.
    pub line: usize,
    /// One-based column of that offset.
    pub column: usize,
    /// What was expected at that offset; nothing occurs twice.
    pub expected: Vec<Failure>,
    /// Whether the furthest failure came from a lookahead: `Some(true)`
    /// from a positive one, `Some(false)` from a negative one.
    pub predicate: Option<bool>,
}

/// Mathematical model of an [`Error`].
pub struct ErrorView {
    pub offset: nat,
    pub line: nat,
    pub column: nat,
    pub expected: Seq<FailureView>,
    pub predicate: Option<bool>,
}

impl View for Error {
    type V = ErrorView;

    open spec fn view(&self) -> ErrorView {
        ErrorView {
            offset: self.offset as nat,
            line: self.line as nat,
            column: self.column as nat,
            expected: failure_views(self.expected@),
            predicate: self.predicate,
        }
    }
}

impl Error {
    /// Whether `failure` is among what was expected, rules put aside.
    pub fn expects(&self, failure: &Failure) -> (res: bool)
        ensures
            res == exists|k: int|
                0 <= k < self@.expected.len() && (#[trigger] self@.expected[k]).cause()
                    == failure@.cause(),
    {
        let mut i: usize = 0;
        while i < self.expected.len()
            invariant
                i <= self.expected@.len(),
                forall|k: int|
                    0 <= k < i ==> (#[trigger] self@.expected[k]).cause() != failure@.cause(),
            decreases self.expected@.len() - i,
        {
            if self.expected[i].cause().same(failure.cause()) {
                assert(self@.expected[i as int] == self.expected@[i as int]@);
                return true;
            }
            i = i + 1;
        }
        false
    }
}

} // verus!
