//! An execution engine for parsing expression grammars.
//!
//! A grammar is a tree of matcher descriptors. Evaluating a descriptor
//! against an input buffer either yields a concrete syntax tree together
//! with the position reached, or records the furthest failure in a tracker
//! from which a diagnosable error is built.
//!
//! Every matcher comes with a mathematical description of what it makes of
//! an input, and its executable form is proved to do just that.

pub mod backref;
pub mod combinator;
pub mod error;
pub mod laws;
pub mod node;
pub mod parser;
pub mod position;
pub mod span;
pub mod stack;
pub mod state;
pub mod terminal;
pub mod tracker;
pub mod typed_node;
pub mod wrapper;

pub use crate::backref::{PeekSlice1, PeekSlice2, DROP, PEEK, PEEK_ALL, POP, POP_ALL};
pub use crate::combinator::{
    restore_on_none, AtomicRule, Context, Either, Emission, Ign, Matcher, Negative, NonAtomicRule,
    Opt, Positive, Push, Rep, Restorable, Rule, Sequence, Silent,
};
pub use crate::error::{Error, Failure, RuleId};
pub use crate::node::{Choice, MatchNode, NewLineType};
pub use crate::parser::{parse, parse_partial, parse_without_ignore, Grammar, REPEAT_LIMIT};
pub use crate::position::Position;
pub use crate::span::Span;
pub use crate::stack::{constrain_idxs, OutOfBound, Stack};
pub use crate::terminal::{
    chars_of, match_char_by, AlwaysFail, CharRange, Empty, Insens, Skip, SkipChar, Str, ANY, EOI,
    NEWLINE, SOI,
};
pub use crate::tracker::Tracker;
pub use crate::typed_node::{
    AlwaysFailed, NeverFailedParsableTypedNode, NeverFailedTypedNode, ParsableTypedNode,
    RuleStorage, RuleStruct, Spanned, TypedNode,
};
pub use crate::wrapper::{BoundWrapper, RuleWrapper, Storage, StringArrayWrapper, StringWrapper};
