//! Concrete syntax trees.

use vstd::prelude::*;
use crate::error::RuleId;
use crate::span::Span;
use crate::span::SpanView;
use crate::typed_node::Spanned;

verus! {

/// Which line break was matched.
#[derive(Clone, Copy, Debug, PartialEq, Eq, Hash, Structural)]
pub enum NewLineType {
    /// `\r\n`
    CRLF,
    /// `\n`
    LF,
    /// `\r`
    CR,
}

/// One of two alternatives.
#[derive(Clone, Debug, PartialEq, Eq, Hash)]
pub enum Choice<T1, T2> {
    /// The first alternative matched.
    First(T1),
    /// The first alternative did not match, and the second did.
    Second(T2),
}

impl<T1, T2> Choice<T1, T2> {
    /// The match of the first alternative, where it is the one that matched.
    pub fn get_first(&self) -> (res: Option<&T1>)
        ensures
            res == match self {
                Choice::First(first) => Some(first),
                Choice::Second(_) => None,
            },
    {
        match self {
            Choice::First(first) => Some(first),
            Choice::Second(_) => None,
        }
    }

    /// The match of the second alternative, where it is the one that
    /// matched.
    pub fn get_second(&self) -> (res: Option<&T2>)
        ensures
            res == match self {
                Choice::First(_) => None,
                Choice::Second(second) => Some(second),
            },
    {
        match self {
            Choice::First(_) => None,
            Choice::Second(second) => Some(second),
        }
    }
}

/// What a successful match yields. Its shape follows the matcher that
/// made it.
#[derive(Debug, PartialEq, Eq, Hash)]
pub enum MatchNode<'i> {
    /// A literal, with the span it covers.
    Str(Span<'i>),
    /// A literal matched without regard to case, with the span of the text
    /// that stood in the input.
    Insens(Span<'i>),
    /// The text skipped before a delimiter.
    Skip(Span<'i>),
    /// A fixed number of skipped characters.
    SkipChar(Span<'i>),
    /// The character matched by a range.
    CharRange(char),
    /// The character matched by the matcher of any character.
    Any(char),
    /// The start of the input.
    Soi,
    /// The end of the input.
    Eoi,
    /// A line break.
    Newline(NewLineType),
    /// The input matched against the whole stack.
    PeekAll(Span<'i>),
    /// The input matched against the top of the stack.
    Peek(Span<'i>),
    /// The input matched against a part of the stack.
    PeekSlice(Span<'i>),
    /// The input matched against the top of the stack, which was taken off.
    Pop(Span<'i>),
    /// The input matched against the whole stack, which was emptied.
    PopAll(Span<'i>),
    /// The top of the stack was taken off.
    Drop,
    /// A match whose span was pushed on the stack.
    Push(Box<MatchNode<'i>>),
    /// What a positive lookahead saw.
    Positive(Box<MatchNode<'i>>),
    /// A negative lookahead held.
    Negative,
    /// An optional match: present or absent.
    Opt(Option<Box<MatchNode<'i>>>),
    /// The matches of a repetition, in order.
    Rep(Vec<MatchNode<'i>>),
    /// The matches of the members of a sequence, in order.
    Sequence(Vec<MatchNode<'i>>),
    /// The match of one of two alternatives.
    Choice(Choice<Box<MatchNode<'i>>, Box<MatchNode<'i>>>),
    /// A match made under the protection of a stack snapshot.
    Restorable(Box<MatchNode<'i>>),
    /// The span of a match whose parts are not kept.
    Silent(Span<'i>),
    /// Nothing was matched, and nothing was to be matched.
    Empty,
    /// The insignificant text that was skipped.
    Skipped(Span<'i>),
    /// The match of a rule: the span it covers and the match of its body,
    /// as far as the rule emits them.
    Rule { id: RuleId, span: Option<Span<'i>>, content: Option<Box<MatchNode<'i>>> },
}

/// Mathematical model of a [`MatchNode`].
pub enum NodeView {
    Str(SpanView),
    Insens(SpanView),
    Skip(SpanView),
    SkipChar(SpanView),
    CharRange(char),
    Any(char),
    Soi,
    Eoi,
    Newline(NewLineType),
    PeekAll(SpanView),
    Peek(SpanView),
    PeekSlice(SpanView),
    Pop(SpanView),
    PopAll(SpanView),
    Drop,
    Push(Box<NodeView>),
    Positive(Box<NodeView>),
    Negative,
    Opt(Option<Box<NodeView>>),
    Rep(Seq<NodeView>),
    Sequence(Seq<NodeView>),
    Choice(Choice<Box<NodeView>, Box<NodeView>>),
    Restorable(Box<NodeView>),
    Silent(SpanView),
    Empty,
    Skipped(SpanView),
    Rule { id: RuleId, span: Option<SpanView>, content: Option<Box<NodeView>> },
}

/// The model of an optional span.
pub open spec fn span_view(span: Option<Span>) -> Option<SpanView> {
    match span {
        Some(s) => Some(s@),
        None => None,
    }
}

/// The models of a list of spans.
pub open spec fn span_views(spans: Seq<Span>) -> Seq<SpanView> {
    Seq::new(spans.len(), |k: int| spans[k]@)
}

impl<'i> MatchNode<'i> {
    /// The model of the node.
    pub open spec fn model(self) -> NodeView
        decreases self,
    {
        match self {
            MatchNode::Str(span) => NodeView::Str(span@),
            MatchNode::Insens(span) => NodeView::Insens(span@),
            MatchNode::Skip(span) => NodeView::Skip(span@),
            MatchNode::SkipChar(span) => NodeView::SkipChar(span@),
            MatchNode::CharRange(c) => NodeView::CharRange(c),
            MatchNode::Any(c) => NodeView::Any(c),
            MatchNode::Soi => NodeView::Soi,
            MatchNode::Eoi => NodeView::Eoi,
            MatchNode::Newline(kind) => NodeView::Newline(kind),
            MatchNode::PeekAll(span) => NodeView::PeekAll(span@),
            MatchNode::Peek(span) => NodeView::Peek(span@),
            MatchNode::PeekSlice(span) => NodeView::PeekSlice(span@),
            MatchNode::Pop(span) => NodeView::Pop(span@),
            MatchNode::PopAll(span) => NodeView::PopAll(span@),
            MatchNode::Drop => NodeView::Drop,
            MatchNode::Push(inner) => NodeView::Push(Box::new((*inner).model())),
            MatchNode::Positive(inner) => NodeView::Positive(Box::new((*inner).model())),
            MatchNode::Negative => NodeView::Negative,
            MatchNode::Opt(inner) => NodeView::Opt(
                match inner {
                    Some(node) => Some(Box::new((*node).model())),
                    None => None,
                },
            ),
            MatchNode::Rep(nodes) => NodeView::Rep(Self::models(nodes@)),
            MatchNode::Sequence(nodes) => NodeView::Sequence(Self::models(nodes@)),
            MatchNode::Choice(choice) => NodeView::Choice(
                match choice {
                    Choice::First(node) => Choice::First(Box::new((*node).model())),
                    Choice::Second(node) => Choice::Second(Box::new((*node).model())),
                },
            ),
            MatchNode::Restorable(inner) => NodeView::Restorable(Box::new((*inner).model())),
            MatchNode::Silent(span) => NodeView::Silent(span@),
            MatchNode::Empty => NodeView::Empty,
            MatchNode::Skipped(span) => NodeView::Skipped(span@),
            MatchNode::Rule { id, span, content } => NodeView::Rule {
                id,
                span: span_view(span),
                content: match content {
                    Some(node) => Some(Box::new((*node).model())),
                    None => None,
                },
            },
        }
    }

    /// The models of a list of nodes.
    pub open spec fn models(nodes: Seq<MatchNode<'i>>) -> Seq<NodeView>
        decreases nodes,
    {
        if nodes.len() == 0 {
            Seq::empty()
        } else {
            Self::models(nodes.drop_last()).push(nodes.last().model())
        }
    }
}

/// Two lists of nodes with the same models, one by one, have the same
/// models.
pub proof fn lemma_models<'i>(a: Seq<MatchNode<'i>>, b: Seq<MatchNode<'i>>)
    requires
        a.len() == b.len(),
        forall|k: int| 0 <= k < a.len() ==> a[k].model() == b[k].model(),
    ensures
        MatchNode::models(a) == MatchNode::models(b),
    decreases a.len(),
{
    if a.len() > 0 {
        lemma_models(a.drop_last(), b.drop_last());
    }
}

impl<'i> MatchNode<'i> {
    /// A copy with the same model.
    pub fn duplicate(&self) -> (res: MatchNode<'i>)
        ensures
            res@ == self@,
        decreases self,
    {
        match self {
            MatchNode::Str(span) => MatchNode::Str(*span),
            MatchNode::Insens(span) => MatchNode::Insens(*span),
            MatchNode::Skip(span) => MatchNode::Skip(*span),
            MatchNode::SkipChar(span) => MatchNode::SkipChar(*span),
            MatchNode::CharRange(c) => MatchNode::CharRange(*c),
            MatchNode::Any(c) => MatchNode::Any(*c),
            MatchNode::Soi => MatchNode::Soi,
            MatchNode::Eoi => MatchNode::Eoi,
            MatchNode::Newline(kind) => MatchNode::Newline(*kind),
            MatchNode::PeekAll(span) => MatchNode::PeekAll(*span),
            MatchNode::Peek(span) => MatchNode::Peek(*span),
            MatchNode::PeekSlice(span) => MatchNode::PeekSlice(*span),
            MatchNode::Pop(span) => MatchNode::Pop(*span),
            MatchNode::PopAll(span) => MatchNode::PopAll(*span),
            MatchNode::Drop => MatchNode::Drop,
            MatchNode::Push(inner) => MatchNode::Push(Box::new(inner.duplicate())),
            MatchNode::Positive(inner) => MatchNode::Positive(Box::new(inner.duplicate())),
            MatchNode::Negative => MatchNode::Negative,
            MatchNode::Opt(inner) => MatchNode::Opt(
                match inner {
                    Some(node) => Some(Box::new(node.duplicate())),
                    None => None,
                },
            ),
            MatchNode::Rep(nodes) => MatchNode::Rep(Self::duplicate_all(nodes)),
            MatchNode::Sequence(nodes) => MatchNode::Sequence(Self::duplicate_all(nodes)),
            MatchNode::Choice(choice) => MatchNode::Choice(
                match choice {
                    Choice::First(node) => Choice::First(Box::new(node.duplicate())),
                    Choice::Second(node) => Choice::Second(Box::new(node.duplicate())),
                },
            ),
            MatchNode::Restorable(inner) => MatchNode::Restorable(Box::new(inner.duplicate())),
            MatchNode::Silent(span) => MatchNode::Silent(*span),
            MatchNode::Empty => MatchNode::Empty,
            MatchNode::Skipped(span) => MatchNode::Skipped(*span),
            MatchNode::Rule { id, span, content } => MatchNode::Rule {
                id: *id,
                span: *span,
                content: match content {
                    Some(node) => Some(Box::new(node.duplicate())),
                    None => None,
                },
            },
        }
    }

    /// Copies of the nodes of a list, with the same models.
    pub fn duplicate_all(nodes: &Vec<MatchNode<'i>>) -> (res: Vec<MatchNode<'i>>)
        ensures
            Self::models(res@) == Self::models(nodes@),
            res@.len() == nodes@.len(),
        decreases nodes,
    {
        let mut res: Vec<MatchNode<'i>> = Vec::new();
        let mut k: usize = 0;
        while k < nodes.len()
            invariant
                k <= nodes@.len(),
                res@.len() == k,
                forall|j: int| 0 <= j < k ==> res@[j].model() == nodes@[j].model(),
            decreases nodes@.len() - k,
        {
            let copy = nodes[k].duplicate();
            res.push(copy);
            k = k + 1;
        }
        proof {
            lemma_models(res@, nodes@);
        }
        res
    }

    /// The nodes right below this one, in the order in which they were
    /// matched.
    pub fn children(&self) -> (res: Vec<&MatchNode<'i>>)
        ensures
            res@.len() == self@.children().len(),
            forall|k: int| 0 <= k < res@.len() ==> (#[trigger] res@[k])@ == self@.children()[k],
    {
        let mut res: Vec<&MatchNode<'i>> = Vec::new();
        match self {
            MatchNode::Push(inner) => {
                res.push(inner);
            },
            MatchNode::Positive(inner) => {
                res.push(inner);
            },
            MatchNode::Restorable(inner) => {
                res.push(inner);
            },
            MatchNode::Opt(Some(inner)) => {
                res.push(inner);
            },
            MatchNode::Choice(Choice::First(inner)) => {
                res.push(inner);
            },
            MatchNode::Choice(Choice::Second(inner)) => {
                res.push(inner);
            },
            MatchNode::Rule { content: Some(inner), .. } => {
                res.push(inner);
            },
            MatchNode::Rep(nodes) => {
                res = Self::refs(nodes);
            },
            MatchNode::Sequence(nodes) => {
                res = Self::refs(nodes);
            },
            _ => {},
        }
        res
    }

    /// References to the nodes of a list.
    fn refs<'a>(nodes: &'a Vec<MatchNode<'i>>) -> (res: Vec<&'a MatchNode<'i>>)
        ensures
            res@.len() == nodes@.len(),
            res@.len() == Self::models(nodes@).len(),
            forall|k: int| 0 <= k < res@.len() ==> (#[trigger] res@[k])@ == Self::models(nodes@)[k],
    {
        let mut res: Vec<&'a MatchNode<'i>> = Vec::new();
        let mut k: usize = 0;
        while k < nodes.len()
            invariant
                k <= nodes@.len(),
                res@.len() == k,
                forall|j: int| 0 <= j < k ==> *res@[j] == nodes@[j],
            decreases nodes@.len() - k,
        {
            res.push(&nodes[k]);
            k = k + 1;
        }
        proof {
            lemma_models_index(nodes@);
        }
        res
    }
}

/// The models of a list of nodes are the models of its nodes, one by one.
pub proof fn lemma_models_index<'i>(nodes: Seq<MatchNode<'i>>)
    ensures
        MatchNode::models(nodes).len() == nodes.len(),
        forall|k: int| 0 <= k < nodes.len() ==> MatchNode::models(nodes)[k] == (#[trigger] nodes[k]).model(),
    decreases nodes.len(),
{
    if nodes.len() > 0 {
        lemma_models_index(nodes.drop_last());
        assert forall|k: int| 0 <= k < nodes.len() implies MatchNode::models(nodes)[k] == (
        #[trigger] nodes[k]).model() by {
            if k < nodes.len() - 1 {
                assert(nodes.drop_last()[k] == nodes[k]);
            }
        }
    }
}

impl NodeView {
    /// The nodes right below this one, in the order in which they were
    /// matched.
    pub open spec fn children(self) -> Seq<NodeView> {
        match self {
            NodeView::Push(inner) => seq![*inner],
            NodeView::Positive(inner) => seq![*inner],
            NodeView::Restorable(inner) => seq![*inner],
            NodeView::Opt(Some(inner)) => seq![*inner],
            NodeView::Choice(Choice::First(inner)) => seq![*inner],
            NodeView::Choice(Choice::Second(inner)) => seq![*inner],
            NodeView::Rule { content: Some(inner), .. } => seq![*inner],
            NodeView::Rep(nodes) => nodes,
            NodeView::Sequence(nodes) => nodes,
            _ => Seq::empty(),
        }
    }
}

impl<'i> Clone for MatchNode<'i> {
    fn clone(&self) -> (res: MatchNode<'i>)
        ensures
            res@ == self@,
    {
        self.duplicate()
    }
}

impl<'i> View for MatchNode<'i> {
    type V = NodeView;

    open spec fn view(&self) -> NodeView {
        self.model()
    }
}

impl<'i> Spanned<'i> for MatchNode<'i> {
    /// The nodes of matchers that consume text by themselves, and those of
    /// rules that emit a span, hold one.
    open spec fn spec_span(&self) -> Option<SpanView> {
        match self@ {
            NodeView::Str(span) => Some(span),
            NodeView::Insens(span) => Some(span),
            NodeView::Skip(span) => Some(span),
            NodeView::SkipChar(span) => Some(span),
            NodeView::PeekAll(span) => Some(span),
            NodeView::Peek(span) => Some(span),
            NodeView::PeekSlice(span) => Some(span),
            NodeView::Pop(span) => Some(span),
            NodeView::PopAll(span) => Some(span),
            NodeView::Skipped(span) => Some(span),
            NodeView::Silent(span) => Some(span),
            NodeView::Rule { span, .. } => span,
            _ => None,
        }
    }

    fn span(&self) -> (res: Option<Span<'i>>) {
        match self {
            MatchNode::Str(span) => Some(*span),
            MatchNode::Insens(span) => Some(*span),
            MatchNode::Skip(span) => Some(*span),
            MatchNode::SkipChar(span) => Some(*span),
            MatchNode::PeekAll(span) => Some(*span),
            MatchNode::Peek(span) => Some(*span),
            MatchNode::PeekSlice(span) => Some(*span),
            MatchNode::Pop(span) => Some(*span),
            MatchNode::PopAll(span) => Some(*span),
            MatchNode::Skipped(span) => Some(*span),
            MatchNode::Silent(span) => Some(*span),
            MatchNode::Rule { span, .. } => *span,
            _ => None,
        }
    }
}

} // verus!
