//! Cursors into an input buffer.

use vstd::prelude::*;
use crate::span::Span;
use crate::span::SpanView;

verus! {

/// Mathematical model of a [`Position`]: a buffer and an offset into it.
pub struct PositionView {
    pub input: Seq<char>,
    pub offset: nat,
}

impl PositionView {
    /// The offset lies inside the buffer or at its end.
    pub open spec fn wf(self) -> bool {
        self.offset <= self.input.len()
    }

    /// The input that is still ahead of the cursor.
    pub open spec fn rest(self) -> Seq<char> {
        self.input.skip(self.offset as int)
    }

    /// The same buffer with the cursor `n` characters further.
    pub open spec fn advance(self, n: nat) -> PositionView {
        PositionView { input: self.input, offset: self.offset + n }
    }
}

/// Every character is a Unicode scalar value: a code point that is no
/// surrogate.
pub proof fn lemma_scalar_value(c: char)
    ensures
        '\0' <= c <= '\u{d7ff}' || '\u{e000}' <= c <= '\u{10ffff}',
{
}

/// Folds an ASCII upper-case letter to lower case and leaves every other
/// character as it is.
pub open spec fn fold_case(c: char) -> char {
    if 'A' <= c && c <= 'Z' {
        ((c as u32) + 32) as char
    } else {
        c
    }
}

/// A text with every character folded by [`fold_case`].
pub open spec fn fold_text(s: Seq<char>) -> Seq<char> {
    s.map_values(|c: char| fold_case(c))
}

/// Number of positions, counted from `from`, at which `a` and `b` keep
/// agreeing.
pub open spec fn agreement(a: Seq<char>, b: Seq<char>, from: nat) -> nat
    decreases a.len() - from,
{
    if from < a.len() && from < b.len() && a[from as int] == b[from as int] {
        1 + agreement(a, b, from + 1)
    } else {
        0
    }
}

/// Length of the longest common prefix of `a` and `b`.
pub open spec fn common_prefix_len(a: Seq<char>, b: Seq<char>) -> nat {
    agreement(a, b, 0)
}

/// Smallest offset in `from..input.len()` at which one of `delimiters`
/// begins, if there is one.
pub open spec fn first_delimiter(input: Seq<char>, delimiters: Seq<Seq<char>>, from: nat) -> Option<nat>
    decreases input.len() - from,
{
    if from >= input.len() {
        None
    } else if starts_with_any(input.skip(from as int), delimiters) {
        Some(from)
    } else {
        first_delimiter(input, delimiters, from + 1)
    }
}

/// Whether `text` begins with one of `delimiters`.
pub open spec fn starts_with_any(text: Seq<char>, delimiters: Seq<Seq<char>>) -> bool {
    exists|k: int| 0 <= k < delimiters.len() && #[trigger] delimiters[k].is_prefix_of(text)
}

/// The texts that a list of literals holds.
pub open spec fn texts(literals: Seq<Vec<char>>) -> Seq<Seq<char>> {
    Seq::new(literals.len(), |k: int| literals[k]@)
}

/// The number `n` where a machine word can hold it, and the largest machine
/// word where it cannot.
pub open spec fn clamp(n: nat) -> usize {
    if n <= usize::MAX {
        n as usize
    } else {
        usize::MAX
    }
}

/// Number of line feeds in `input` before `offset`.
pub open spec fn line_feeds_before(input: Seq<char>, offset: nat) -> nat
    decreases offset,
{
    if offset == 0 || offset > input.len() {
        0
    } else if input[offset - 1] == '\n' {
        1 + line_feeds_before(input, (offset - 1) as nat)
    } else {
        line_feeds_before(input, (offset - 1) as nat)
    }
}

/// Offset at which the line that holds `offset` begins.
pub open spec fn line_start(input: Seq<char>, offset: nat) -> nat
    decreases offset,
{
    if offset == 0 || offset > input.len() {
        0
    } else if input[offset - 1] == '\n' {
        offset
    } else {
        line_start(input, (offset - 1) as nat)
    }
}

/// One-based line number of `offset`.
pub open spec fn line_of(input: Seq<char>, offset: nat) -> nat {
    line_feeds_before(input, offset) + 1
}

/// One-based column number of `offset`.
pub open spec fn column_of(input: Seq<char>, offset: nat) -> nat {
    (offset - line_start(input, offset) + 1) as nat
}

/// The longest common prefix is a common prefix, and cannot be extended.
pub proof fn lemma_agreement(a: Seq<char>, b: Seq<char>, from: nat)
    requires
        from <= a.len(),
        from <= b.len(),
    ensures
        ({
            let end = (from + agreement(a, b, from)) as int;
            &&& end <= a.len()
            &&& end <= b.len()
            &&& forall|j: int| from <= j < end ==> a[j] == b[j]
            &&& end < a.len() && end < b.len() ==> a[end] != b[end]
        }),
    decreases a.len() - from,
{
    if from < a.len() && from < b.len() && a[from as int] == b[from as int] {
        lemma_agreement(a, b, from + 1);
    }
}

/// A text is a prefix of another exactly when their longest common prefix
/// is the whole text.
pub proof fn lemma_prefix_iff_common(s: Seq<char>, text: Seq<char>)
    ensures
        s.is_prefix_of(text) <==> common_prefix_len(text, s) == s.len(),
{
    lemma_agreement(text, s, 0);
}

/// A cursor into one input buffer.
///
/// A position is cheap to copy and always lies inside its buffer or at its
/// end.
#[derive(Clone, Copy, Debug, PartialEq, Eq, Hash)]
pub struct Position<'i> {
    input: &'i [char],
    pos: usize,
}

impl<'i> View for Position<'i> {
    type V = PositionView;

    closed spec fn view(&self) -> PositionView {
        PositionView { input: self.input@, offset: self.pos as nat }
    }
}

/// Folds an ASCII upper-case letter to lower case.
pub fn to_lower(c: char) -> (res: char)
    ensures
        res == fold_case(c),
{
    if c >= 'A' && c <= 'Z' {
        let code: u32 = c as u32;
        let folded: u8 = (code + 32) as u8;
        folded as char
    } else {
        c
    }
}

impl<'i> Position<'i> {
    /// Every position value satisfies the well-formedness of its model.
    #[verifier::type_invariant]
    pub open spec fn wf(self) -> bool {
        self@.wf()
    }

    /// The cursor at offset `pos` of `input`, or nothing where `pos` lies
    /// beyond the end of the buffer.
    pub fn new(input: &'i [char], pos: usize) -> (res: Option<Position<'i>>)
        ensures
            res is Some <==> pos <= input@.len(),
            res matches Some(p) ==> p@ == (PositionView { input: input@, offset: pos as nat }),
    {
        if pos <= input.len() {
            Some(Position { input, pos })
        } else {
            None
        }
    }

    /// The cursor at the start of `input`.
    pub fn from_start(input: &'i [char]) -> (res: Position<'i>)
        ensures
            res@ == (PositionView { input: input@, offset: 0 }),
    {
        Position { input, pos: 0 }
    }

    /// Offset of the cursor.
    pub fn pos(&self) -> (res: usize)
        ensures
            res == self@.offset,
            res <= self@.input.len(),
    {
        proof {
            use_type_invariant(self);
        }
        self.pos
    }

    /// The buffer that the cursor points into.
    pub fn input(&self) -> (res: &'i [char])
        ensures
            res@ == self@.input,
    {
        self.input
    }

    /// Whether the cursor stands before the first character.
    pub fn at_start(&self) -> (res: bool)
        ensures
            res == (self@.offset == 0),
    {
        self.pos == 0
    }

    /// Whether the cursor stands behind the last character.
    pub fn at_end(&self) -> (res: bool)
        ensures
            res == (self@.offset == self@.input.len()),
    {
        self.pos == self.input.len()
    }

    /// The span from this cursor to a later cursor of the same buffer.
    pub fn span_to(&self, other: &Position<'i>) -> (res: Span<'i>)
        requires
            self@.input == other@.input,
            self@.offset <= other@.offset,
        ensures
            res@ == (SpanView { input: self@.input, start: self@.offset, end: other@.offset }),
    {
        proof {
            use_type_invariant(self);
            use_type_invariant(other);
        }
        Span::between(self.input, self.pos, other.pos)
    }

    /// Number of characters of `s` that the input ahead agrees with before
    /// the first difference.
    pub fn common_prefix(&self, s: &[char]) -> (res: usize)
        ensures
            res == common_prefix_len(self@.rest(), s@),
            res <= s@.len(),
            self@.offset + res <= self@.input.len(),
    {
        proof {
            use_type_invariant(self);
            lemma_agreement(self@.rest(), s@, 0);
        }
        let ghost rest = self@.rest();
        let mut n: usize = 0;
        while n < s.len() && n < self.input.len() - self.pos && self.input[self.pos + n] == s[n]
            invariant
                self.wf(),
                rest == self@.rest(),
                n <= s@.len(),
                n <= rest.len(),
                rest.len() == self@.input.len() - self@.offset,
                agreement(rest, s@, 0) == n + agreement(rest, s@, n as nat),
            decreases s@.len() - n,
        {
            n = n + 1;
        }
        n
    }

    /// Number of characters of `s` that the input ahead agrees with, case
    /// of ASCII letters put aside, before the first difference.
    pub fn common_prefix_ci(&self, s: &[char]) -> (res: usize)
        ensures
            res == common_prefix_len(fold_text(self@.rest()), fold_text(s@)),
            res <= s@.len(),
            self@.offset + res <= self@.input.len(),
    {
        proof {
            use_type_invariant(self);
            lemma_agreement(fold_text(self@.rest()), fold_text(s@), 0);
        }
        let ghost rest = fold_text(self@.rest());
        let ghost lit = fold_text(s@);
        let mut n: usize = 0;
        while n < s.len() && n < self.input.len() - self.pos && to_lower(self.input[self.pos + n])
            == to_lower(s[n])
            invariant
                self.wf(),
                rest == fold_text(self@.rest()),
                lit == fold_text(s@),
                n <= s@.len(),
                n <= rest.len(),
                rest.len() == self@.input.len() - self@.offset,
                agreement(rest, lit, 0) == n + agreement(rest, lit, n as nat),
            decreases s@.len() - n,
        {
            n = n + 1;
        }
        n
    }

    /// Moves past `s` where the input ahead begins with it, and stays where
    /// that is not so.
    pub fn match_literal(&mut self, s: &[char]) -> (matched: bool)
        ensures
            matched == s@.is_prefix_of(old(self)@.rest()),
            final(self)@ == if matched {
                old(self)@.advance(s@.len())
            } else {
                old(self)@
            },
    {
        proof {
            use_type_invariant(&*self);
            lemma_prefix_iff_common(s@, self@.rest());
        }
        let n = self.common_prefix(s);
        if n == s.len() {
            assert(self.pos + n <= self.input.len());
            self.pos = self.pos + n;
            true
        } else {
            false
        }
    }

    /// Moves past as many characters as `s` has where the input ahead
    /// begins with `s`, case of ASCII letters put aside, and returns the
    /// span of the text that stood there.
    pub fn match_literal_ci(&mut self, s: &[char]) -> (matched: Option<Span<'i>>)
        ensures
            matched is Some <==> fold_text(s@).is_prefix_of(fold_text(old(self)@.rest())),
            matched matches Some(span) ==> span@ == (SpanView {
                input: old(self)@.input,
                start: old(self)@.offset,
                end: old(self)@.offset + s@.len(),
            }),
            final(self)@ == if matched is Some {
                old(self)@.advance(s@.len())
            } else {
                old(self)@
            },
    {
        proof {
            use_type_invariant(&*self);
            lemma_prefix_iff_common(fold_text(s@), fold_text(self@.rest()));
        }
        let n = self.common_prefix_ci(s);
        if n == s.len() {
            let start = *self;
            assert(self.pos + n <= self.input.len());
            self.pos = self.pos + n;
            Some(start.span_to(self))
        } else {
            None
        }
    }

    /// Moves past one character where it lies in `min..=max`, and returns
    /// it.
    pub fn match_char_in_range(&mut self, min: char, max: char) -> (matched: Option<char>)
        ensures
            matched is Some <==> old(self)@.offset < old(self)@.input.len() && min <= old(
                self,
            )@.input[old(self)@.offset as int] <= max,
            matched matches Some(c) ==> c == old(self)@.input[old(self)@.offset as int],
            final(self)@ == if matched is Some {
                old(self)@.advance(1)
            } else {
                old(self)@
            },
    {
        proof {
            use_type_invariant(&*self);
        }
        if self.pos < self.input.len() {
            let c = self.input[self.pos];
            if min <= c && c <= max {
                self.pos = self.pos + 1;
                return Some(c);
            }
        }
        None
    }

    /// Moves past one character, whichever it is, and returns it.
    pub fn match_any_char(&mut self) -> (matched: Option<char>)
        ensures
            matched is Some <==> old(self)@.offset < old(self)@.input.len(),
            matched matches Some(c) ==> c == old(self)@.input[old(self)@.offset as int],
            final(self)@ == if matched is Some {
                old(self)@.advance(1)
            } else {
                old(self)@
            },
    {
        proof {
            use_type_invariant(&*self);
        }
        if self.pos < self.input.len() {
            let c = self.input[self.pos];
            self.pos = self.pos + 1;
            Some(c)
        } else {
            None
        }
    }

    /// Moves past one character where `pred` accepts it.
    pub fn match_char_by<F: FnOnce(char) -> bool>(&mut self, pred: F) -> (matched: bool)
        requires
            forall|c: char| pred.requires((c,)),
        ensures
            matched ==> old(self)@.offset < old(self)@.input.len() && pred.ensures(
                (old(self)@.input[old(self)@.offset as int],),
                true,
            ),
            !matched ==> old(self)@.offset == old(self)@.input.len() || pred.ensures(
                (old(self)@.input[old(self)@.offset as int],),
                false,
            ),
            final(self)@ == if matched {
                old(self)@.advance(1)
            } else {
                old(self)@
            },
    {
        proof {
            use_type_invariant(&*self);
        }
        if self.pos < self.input.len() {
            let c = self.input[self.pos];
            if pred(c) {
                self.pos = self.pos + 1;
                return true;
            }
        }
        false
    }

    /// Moves `n` characters further where that many are ahead.
    pub fn skip(&mut self, n: usize) -> (skipped: bool)
        ensures
            skipped == (old(self)@.offset + n <= old(self)@.input.len()),
            final(self)@ == if skipped {
                old(self)@.advance(n as nat)
            } else {
                old(self)@
            },
    {
        proof {
            use_type_invariant(&*self);
        }
        if n <= self.input.len() - self.pos {
            self.pos = self.pos + n;
            true
        } else {
            false
        }
    }

    /// Whether the input ahead begins with one of `delimiters`.
    pub fn starts_with_one_of(&self, delimiters: &[Vec<char>]) -> (res: bool)
        ensures
            res == starts_with_any(self@.rest(), texts(delimiters@)),
    {
        let ghost views = texts(delimiters@);
        let mut k: usize = 0;
        while k < delimiters.len()
            invariant
                k <= delimiters@.len(),
                views == texts(delimiters@),
                forall|j: int| 0 <= j < k ==> !(#[trigger] views[j]).is_prefix_of(self@.rest()),
            decreases delimiters@.len() - k,
        {
            let d = &delimiters[k];
            let n = self.common_prefix(d.as_slice());
            proof {
                lemma_prefix_iff_common(d@, self@.rest());
                assert(views[k as int] == d@);
            }
            if n == d.len() {
                return true;
            }
            k = k + 1;
        }
        false
    }

    /// Moves to the nearest offset ahead, before the end of the buffer, at
    /// which one of `delimiters` begins. The delimiter itself is not passed.
    pub fn skip_until(&mut self, delimiters: &[Vec<char>]) -> (found: bool)
        ensures
            found == first_delimiter(
                old(self)@.input,
                texts(delimiters@),
                old(self)@.offset,
            ) is Some,
            final(self)@ == if found {
                PositionView {
                    input: old(self)@.input,
                    offset: first_delimiter(
                        old(self)@.input,
                        texts(delimiters@),
                        old(self)@.offset,
                    )->0,
                }
            } else {
                old(self)@
            },
    {
        proof {
            use_type_invariant(&*self);
        }
        let ghost views = texts(delimiters@);
        let ghost goal = first_delimiter(self@.input, views, self@.offset);
        let mut probe = *self;
        while probe.pos < probe.input.len()
            invariant
                probe.wf(),
                probe@.input == old(self)@.input,
                *self == *old(self),
                views == texts(delimiters@),
                goal == first_delimiter(old(self)@.input, views, old(self)@.offset),
                goal == first_delimiter(probe@.input, views, probe@.offset),
            decreases probe@.input.len() - probe@.offset,
        {
            if probe.starts_with_one_of(delimiters) {
                *self = probe;
                return true;
            }
            probe.pos = probe.pos + 1;
        }
        false
    }

    /// One-based line and column of the cursor.
    pub fn line_col(&self) -> (res: (usize, usize))
        ensures
            res.0 == clamp(line_of(self@.input, self@.offset)),
            res.1 == clamp(column_of(self@.input, self@.offset)),
    {
        proof {
            use_type_invariant(self);
        }
        let mut lines: usize = 0;
        let mut start: usize = 0;
        let mut i: usize = 0;
        while i < self.pos
            invariant
                self.wf(),
                i <= self.pos,
                lines <= i,
                start <= i,
                lines == line_feeds_before(self@.input, i as nat),
                start == line_start(self@.input, i as nat),
            decreases self.pos - i,
        {
            if self.input[i] == '\n' {
                lines = lines + 1;
                start = i + 1;
            }
            i = i + 1;
        }
        let line = if lines < usize::MAX {
            lines + 1
        } else {
            usize::MAX
        };
        let column = if self.pos - start < usize::MAX {
            self.pos - start + 1
        } else {
            usize::MAX
        };
        (line, column)
    }
}

} // verus!
