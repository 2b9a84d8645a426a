//! Ranges over an input buffer.

use vstd::prelude::*;

verus! {

/// Mathematical model of a [`Span`]: a buffer and two offsets into it.
pub struct SpanView {
    pub input: Seq<char>,
    pub start: nat,
    pub end: nat,
}

impl SpanView {
    /// The characters that the span covers.
    pub open spec fn text(self) -> Seq<char> {
        self.input.subrange(self.start as int, self.end as int)
    }

    /// A span never ends before it starts, and never leaves its buffer.
    pub open spec fn wf(self) -> bool {
        self.start <= self.end <= self.input.len()
    }
}

/// An immutable range `start..end` of one input buffer.
#[derive(Clone, Copy, Debug, PartialEq, Eq, Hash)]
pub struct Span<'i> {
    input: &'i [char],
    start: usize,
    end: usize,
}

impl<'i> View for Span<'i> {
    type V = SpanView;

    closed spec fn view(&self) -> SpanView {
        SpanView { input: self.input@, start: self.start as nat, end: self.end as nat }
    }
}

impl<'i> Span<'i> {
    /// Every span value satisfies the well-formedness of its model.
    #[verifier::type_invariant]
    pub open spec fn wf(self) -> bool {
        self@.wf()
    }

    /// Builds the span `start..end` of `input`, or nothing where the range
    /// is reversed or leaves the buffer.
    pub fn new(input: &'i [char], start: usize, end: usize) -> (res: Option<Span<'i>>)
        ensures
            res is Some <==> start <= end <= input@.len(),
            res matches Some(s) ==> s@ == (SpanView {
                input: input@,
                start: start as nat,
                end: end as nat,
            }),
    {
        if start <= end && end <= input.len() {
            Some(Span { input, start, end })
        } else {
            None
        }
    }

    /// Builds the span `start..end` of `input`.
    pub(crate) fn between(input: &'i [char], start: usize, end: usize) -> (res: Span<'i>)
        requires
            start <= end <= input@.len(),
        ensures
            res@ == (SpanView { input: input@, start: start as nat, end: end as nat }),
    {
        Span { input, start, end }
    }

    /// Offset of the first covered character.
    pub fn start(&self) -> (res: usize)
        ensures
            res == self@.start,
    {
        self.start
    }

    /// Offset one past the last covered character.
    pub fn end(&self) -> (res: usize)
        ensures
            res == self@.end,
    {
        self.end
    }

    /// Number of covered characters.
    pub fn len(&self) -> (res: usize)
        ensures
            res == self@.text().len(),
            res == self@.end - self@.start,
    {
        proof {
            use_type_invariant(self);
        }
        self.end - self.start
    }

    /// Whether the span covers nothing.
    pub fn is_empty(&self) -> (res: bool)
        ensures
            res == (self@.text().len() == 0),
    {
        proof {
            use_type_invariant(self);
        }
        self.end == self.start
    }

    /// The whole buffer that the span points into.
    pub fn input(&self) -> (res: &'i [char])
        ensures
            res@ == self@.input,
    {
        self.input
    }

    /// The covered characters, borrowed from the buffer.
    pub fn as_slice(&self) -> (res: &'i [char])
        ensures
            res@ == self@.text(),
    {
        proof {
            use_type_invariant(self);
        }
        vstd::slice::slice_subrange(self.input, self.start, self.end)
    }

    /// The character at `index` of the covered text.
    pub fn char_at(&self, index: usize) -> (res: Option<char>)
        ensures
            res == if index < self@.text().len() {
                Some(self@.text()[index as int])
            } else {
                None
            },
    {
        proof {
            use_type_invariant(self);
        }
        if index < self.end - self.start {
            Some(self.input[self.start + index])
        } else {
            None
        }
    }
}

/// Compares two buffers character by character.
pub fn equal_chars(a: &[char], b: &[char]) -> (res: bool)
    ensures
        res == (a@ == b@),
{
    if a.len() != b.len() {
        return false;
    }
    let mut i: usize = 0;
    while i < a.len()
        invariant
            i <= a.len(),
            a.len() == b.len(),
            forall|j: int| 0 <= j < i ==> a@[j] == b@[j],
        decreases a.len() - i,
    {
        if a[i] != b[i] {
            return false;
        }
        i = i + 1;
    }
    assert(a@ =~= b@);
    true
}

} // verus!
