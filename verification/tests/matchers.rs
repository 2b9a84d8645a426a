use pest_typed::{
    chars_of, parse, parse_partial, AlwaysFail, AtomicRule, CharRange, Context, Either, Emission,
    Empty, Error, Failure, Grammar, Ign, Insens, MatchNode, Matcher, Negative,
    NeverFailedParsableTypedNode, NeverFailedTypedNode, NewLineType, NonAtomicRule, Opt,
    ParsableTypedNode, PeekSlice1, PeekSlice2, Position, Positive, Push, Rep, Restorable, Rule,
    RuleStorage, RuleStruct, RuleWrapper, Sequence, Silent, Skip, SkipChar, Span, Spanned, Stack,
    Storage, Str, StringArrayWrapper, StringWrapper, Tracker, TypedNode, ANY, EOI, NEWLINE, SOI,
};

fn lit(s: &str) -> Matcher {
    Matcher::Str(Str::new(s))
}

fn seq(content: Vec<Matcher>) -> Matcher {
    Matcher::Sequence(Sequence { content })
}

fn choice(first: Matcher, second: Matcher) -> Matcher {
    Matcher::Choice(Either { first: Box::new(first), second: Box::new(second) })
}

fn push(content: Matcher) -> Matcher {
    Matcher::Push(Push { content: Box::new(content) })
}

fn opt(content: Matcher) -> Matcher {
    Matcher::Opt(Opt { content: Box::new(content) })
}

fn rep(content: Matcher) -> Matcher {
    Matcher::Rep(Rep { content: Box::new(content) })
}

fn not(content: Matcher) -> Matcher {
    Matcher::Negative(Negative { content: Box::new(content) })
}

fn ahead(content: Matcher) -> Matcher {
    Matcher::Positive(Positive { content: Box::new(content) })
}

fn rule(id: u32, content: Matcher) -> Matcher {
    Matcher::Rule(Rule { id, emission: Emission::InnerToken, content: Box::new(content) })
}

fn nested(rule: u32, inner: Failure) -> Failure {
    Failure::NestedRuleFailure(rule, Box::new(inner))
}

fn literal(s: &str) -> Failure {
    Failure::UnmatchedLiteral(chars_of(s))
}

fn spaces() -> Grammar {
    Grammar::with_ignored(Matcher::CharRange(CharRange { min: ' ', max: ' ' }), Matcher::AlwaysFail)
}

fn plain() -> Context<'static> {
    Context { ignored: None, atomic: false, repeat_limit: 1024 }
}

fn end<'i>(matcher: &Matcher, input: &'i [char]) -> Option<usize> {
    parse_partial(matcher, &Grammar::new(), input).ok().map(|(position, _)| position.pos())
}

fn failure(matcher: &Matcher, input: &[char]) -> Error {
    parse_partial(matcher, &Grammar::new(), input).unwrap_err()
}

fn span_text(span: &Span) -> String {
    span.as_slice().iter().collect()
}

#[test]
fn literal_matches_exactly() {
    let foo = lit("foo");
    assert_eq!(end(&foo, &chars_of("foo")), Some(3));
    assert_eq!(end(&foo, &chars_of("foobar")), Some(3));
    assert_eq!(end(&foo, &chars_of("fo")), None);
    assert_eq!(end(&foo, &chars_of("Foo")), None);
    assert_eq!(end(&lit(""), &chars_of("")), Some(0));
}

#[test]
fn literal_failure_is_recorded_at_the_first_difference() {
    let error = failure(&lit("hello"), &chars_of("help"));
    assert_eq!(error.offset, 3);
    assert_eq!(error.expected, vec![literal("hello")]);
    let error = failure(&lit("hello"), &chars_of("he"));
    assert_eq!(error.offset, 2);
    let error = failure(&lit("hello"), &chars_of("xhello"));
    assert_eq!(error.offset, 0);
}

#[test]
fn insensitive_literal_keeps_the_text_of_the_input() {
    let matcher = Matcher::Insens(Insens::new("select"));
    let input = chars_of("SeLeCt *");
    let (position, node) = parse_partial(&matcher, &Grammar::new(), &input).unwrap();
    assert_eq!(position.pos(), 6);
    match node {
        MatchNode::Insens(span) => assert_eq!(span_text(&span), "SeLeCt"),
        _ => panic!("an insensitive literal was expected"),
    }
    let error = failure(&matcher, &chars_of("SELEKT"));
    assert_eq!(error.offset, 4);
    assert_eq!(error.expected, vec![literal("select")]);
}

#[test]
fn character_range_matches_one_character() {
    let digit = Matcher::CharRange(CharRange { min: '0', max: '9' });
    let input = chars_of("7x");
    let (position, node) = parse_partial(&digit, &Grammar::new(), &input).unwrap();
    assert_eq!(position.pos(), 1);
    assert_eq!(node, MatchNode::CharRange('7'));
    assert_eq!(end(&digit, &chars_of("0")), Some(1));
    assert_eq!(end(&digit, &chars_of("9")), Some(1));
    let error = failure(&digit, &chars_of("x"));
    assert_eq!(error.offset, 0);
    assert_eq!(error.expected, vec![Failure::UnmatchedCharRange('0', '9')]);
    let error = failure(&digit, &chars_of(""));
    assert_eq!(error.expected, vec![Failure::UnmatchedCharRange('0', '9')]);
}

#[test]
fn any_matches_whatever_stands_there() {
    let input = chars_of("é");
    let (position, node) = parse_partial(&Matcher::Any, &Grammar::new(), &input).unwrap();
    assert_eq!(position.pos(), 1);
    assert_eq!(node, MatchNode::Any('é'));
    let error = failure(&Matcher::Any, &chars_of(""));
    assert_eq!(error.offset, 0);
    assert_eq!(error.expected, vec![Failure::UnmatchedCharRange('\0', '\u{10ffff}')]);
}

#[test]
fn start_and_end_of_input_consume_nothing() {
    let both = seq(vec![Matcher::Soi, lit("a"), Matcher::Eoi]);
    assert_eq!(end(&both, &chars_of("a")), Some(1));
    assert_eq!(end(&seq(vec![Matcher::Soi, Matcher::Eoi]), &chars_of("")), Some(0));
    let error = failure(&both, &chars_of("ab"));
    assert_eq!(error.offset, 1);
    assert_eq!(error.expected, vec![Failure::PredicateFailed { positive: false }]);
    let late = seq(vec![lit("a"), Matcher::Soi]);
    let error = failure(&late, &chars_of("a"));
    assert_eq!(error.offset, 1);
    assert_eq!(error.expected, vec![Failure::PredicateFailed { positive: true }]);
    assert_eq!(error.predicate, Some(true));
}

#[test]
fn newline_tries_the_pair_first() {
    let kind = |input: &str| {
        let input = chars_of(input);
        match parse_partial(&Matcher::Newline, &Grammar::new(), &input) {
            Ok((position, MatchNode::Newline(kind))) => Some((position.pos(), kind)),
            Ok(_) => panic!("a line break was expected"),
            Err(_) => None,
        }
    };
    assert_eq!(kind("\r\nx"), Some((2, NewLineType::CRLF)));
    assert_eq!(kind("\nx"), Some((1, NewLineType::LF)));
    assert_eq!(kind("\rx"), Some((1, NewLineType::CR)));
    assert_eq!(kind("\n\r"), Some((1, NewLineType::LF)));
    assert_eq!(kind("x"), None);
    assert_eq!(kind(""), None);
    let error = failure(&Matcher::Newline, &chars_of("x"));
    assert_eq!(error.offset, 0);
    assert_eq!(error.expected, vec![literal("\r\n"), literal("\n"), literal("\r")]);
}

#[test]
fn skip_stops_before_the_nearest_delimiter() {
    let matcher = Matcher::Skip(Skip { strings: vec![chars_of("*/"), chars_of("!")] });
    let input = chars_of("abc ! */");
    let (position, node) = parse_partial(&matcher, &Grammar::new(), &input).unwrap();
    assert_eq!(position.pos(), 4);
    match node {
        MatchNode::Skip(span) => assert_eq!(span_text(&span), "abc "),
        _ => panic!("a skip was expected"),
    }
    assert_eq!(end(&matcher, &chars_of("*/")), Some(0));
    let error = failure(&matcher, &chars_of("abc"));
    assert_eq!(error.offset, 3);
    assert_eq!(error.expected, vec![literal("*/"), literal("!")]);
}

#[test]
fn skip_char_needs_that_many_characters() {
    let matcher = Matcher::SkipChar(SkipChar { n: 3 });
    assert_eq!(end(&matcher, &chars_of("abcd")), Some(3));
    assert_eq!(end(&matcher, &chars_of("abc")), Some(3));
    assert_eq!(end(&Matcher::SkipChar(SkipChar { n: 0 }), &chars_of("")), Some(0));
    let error = failure(&matcher, &chars_of("ab"));
    assert_eq!(error.offset, 2);
    assert_eq!(error.expected, vec![Failure::UnmatchedCharRange('\0', '\u{10ffff}')]);
}

#[test]
fn always_fail_and_empty() {
    let error = failure(&Matcher::AlwaysFail, &chars_of("abc"));
    assert_eq!(error.offset, 0);
    assert!(error.expected.is_empty());
    assert_eq!(end(&Matcher::Empty, &chars_of("abc")), Some(0));
    assert_eq!(end(&Matcher::Empty, &chars_of("")), Some(0));
}

#[test]
fn sequence_matches_members_in_order() {
    let abc = seq(vec![lit("a"), lit("b"), lit("c")]);
    let input = chars_of("abc");
    match parse(&abc, &Grammar::new(), &input).unwrap() {
        MatchNode::Sequence(nodes) => {
            assert_eq!(nodes.len(), 3);
            let texts: Vec<String> = nodes
                .iter()
                .map(|node| match node {
                    MatchNode::Str(span) => span_text(span),
                    _ => panic!("a literal was expected"),
                })
                .collect();
            assert_eq!(texts, vec!["a", "b", "c"]);
        }
        _ => panic!("a sequence was expected"),
    }
    assert_eq!(end(&seq(vec![]), &chars_of("x")), Some(0));
    let error = failure(&abc, &chars_of("abx"));
    assert_eq!(error.offset, 2);
    assert_eq!(error.expected, vec![literal("c")]);
}

#[test]
fn sequence_skips_between_members_only() {
    let ab = seq(vec![lit("a"), lit("b")]);
    let g = spaces();
    let input = chars_of("a   b");
    let (position, _) = parse_partial(&ab, &g, &input).unwrap();
    assert_eq!(position.pos(), 5);
    assert!(parse_partial(&ab, &g, &chars_of(" ab")).is_err());
    let input = chars_of("ab  ");
    let (position, _) = parse_partial(&ab, &g, &input).unwrap();
    assert_eq!(position.pos(), 2);
}

#[test]
fn sequence_does_not_undo_what_earlier_members_pushed() {
    let matcher = choice(seq(vec![push(lit("a")), lit("x")]), seq(vec![lit("a"), Matcher::Peek]));
    assert_eq!(end(&matcher, &chars_of("aa")), Some(2));
    let guarded = choice(
        Matcher::Restorable(Restorable { content: Box::new(seq(vec![push(lit("a")), lit("x")])) }),
        seq(vec![lit("a"), Matcher::Peek]),
    );
    let error = failure(&guarded, &chars_of("aa"));
    assert_eq!(error.offset, 1);
    assert_eq!(error.expected, vec![literal("x"), Failure::EmptyStack]);
}

#[test]
fn optional_never_fails() {
    let maybe = opt(lit("a"));
    let input = chars_of("a");
    let (position, node) = parse_partial(&maybe, &Grammar::new(), &input).unwrap();
    assert_eq!(position.pos(), 1);
    assert!(matches!(node, MatchNode::Opt(Some(_))));
    let input = chars_of("b");
    let (position, node) = parse_partial(&maybe, &Grammar::new(), &input).unwrap();
    assert_eq!(position.pos(), 0);
    assert_eq!(node, MatchNode::Opt(None));
}

#[test]
fn optional_undoes_the_pushes_of_a_failed_body() {
    let body = seq(vec![push(lit("a")), lit("x")]);
    let input = chars_of("ab");
    let start = Position::from_start(&input);
    let mut stack: Stack<Span> = Stack::new();
    let mut tracker = Tracker::new(start);
    let (position, node) =
        opt(body).try_parse_with(plain(), start, &mut stack, &mut tracker).unwrap();
    assert_eq!(position.pos(), 0);
    assert_eq!(node, MatchNode::Opt(None));
    assert!(stack.is_empty());
    assert_eq!(stack.depth(), 0);
    assert!(Matcher::Peek.try_parse_with(plain(), position, &mut stack, &mut tracker).is_none());
    // The empty stack was met at offset 0, nearer than the literal that
    // failed at offset 1, and is not reported.
    assert_eq!(tracker.position().pos(), 1);
    assert_eq!(tracker.expected(), &[literal("x")][..]);
    let kept = seq(vec![opt(push(lit("a"))), Matcher::Peek]);
    assert_eq!(end(&kept, &chars_of("aa")), Some(2));
}

#[test]
fn repetition_skips_between_matches() {
    let many = rep(lit("ab"));
    let g = spaces();
    let input = chars_of("ab ab  abx");
    let (position, node) = parse_partial(&many, &g, &input).unwrap();
    assert_eq!(position.pos(), 9);
    match node {
        MatchNode::Rep(nodes) => assert_eq!(nodes.len(), 3),
        _ => panic!("a repetition was expected"),
    }
    let input = chars_of("x");
    let (position, node) = parse_partial(&many, &g, &input).unwrap();
    assert_eq!(position.pos(), 0);
    assert_eq!(node, MatchNode::Rep(vec![]));
}

#[test]
fn lookahead_consumes_nothing() {
    let matcher = seq(vec![ahead(lit("ab")), lit("a")]);
    assert_eq!(end(&matcher, &chars_of("ab")), Some(1));
    let input = chars_of("ab");
    let (position, node) = parse_partial(&ahead(lit("ab")), &Grammar::new(), &input).unwrap();
    assert_eq!(position.pos(), 0);
    assert!(matches!(node, MatchNode::Positive(_)));
    let error = failure(&ahead(lit("ab")), &chars_of("ax"));
    assert_eq!(error.offset, 1);
    assert_eq!(error.expected, vec![Failure::PredicateFailed { positive: true }]);
    assert_eq!(error.predicate, Some(true));
    let error = failure(&ahead(lit("ab")), &chars_of("x"));
    assert_eq!(error.offset, 0);
    assert_eq!(error.expected, vec![Failure::PredicateFailed { positive: true }]);
}

#[test]
fn negative_lookahead_holds_where_the_body_fails() {
    let matcher = seq(vec![not(lit("b")), Matcher::Any]);
    assert_eq!(end(&matcher, &chars_of("a")), Some(1));
    let input = chars_of("a");
    let (position, node) = parse_partial(&not(lit("b")), &Grammar::new(), &input).unwrap();
    assert_eq!(position.pos(), 0);
    assert_eq!(node, MatchNode::Negative);
    let error = failure(&matcher, &chars_of("b"));
    assert_eq!(error.offset, 0);
    assert_eq!(error.expected, vec![Failure::PredicateFailed { positive: false }]);
    assert_eq!(error.predicate, Some(false));
}

#[test]
fn negative_lookahead_hides_what_its_body_matched() {
    let body = seq(vec![push(lit("a")), choice(lit("x"), lit("b"))]);
    let matcher = seq(vec![not(body), Matcher::Peek]);
    let error = failure(&matcher, &chars_of("ab"));
    assert_eq!(error.offset, 1);
    assert_eq!(error.expected, vec![Failure::PredicateFailed { positive: false }]);
}

#[test]
fn restorable_propagates_the_failure_and_cuts_back() {
    let body = seq(vec![push(lit("a")), lit("x")]);
    let guarded = Matcher::Restorable(Restorable { content: Box::new(body) });
    let input = chars_of("ab");
    let mut stack: Stack<Span> = Stack::new();
    let start = Position::from_start(&input);
    let mut tracker = Tracker::new(start);
    assert!(guarded.try_parse_with(plain(), start, &mut stack, &mut tracker).is_none());
    assert!(stack.is_empty());
    assert_eq!(stack.depth(), 0);
    assert_eq!(tracker.position().pos(), 1);
    assert_eq!(tracker.expected(), &[literal("x")][..]);

    let input = chars_of("ax");
    let start = Position::from_start(&input);
    let (position, node) =
        guarded.try_parse_with(plain(), start, &mut stack, &mut tracker).unwrap();
    assert_eq!(position.pos(), 2);
    assert!(matches!(node, MatchNode::Restorable(_)));
    assert_eq!(stack.len(), 1);
    assert_eq!(stack.depth(), 0);
}

#[test]
fn push_records_the_span_consumed() {
    let input = chars_of("abc");
    let mut stack: Stack<Span> = Stack::new();
    let start = Position::from_start(&input);
    let mut tracker = Tracker::new(start);
    let matcher = push(seq(vec![lit("a"), lit("b")]));
    let (position, _) = matcher.try_parse_with(plain(), start, &mut stack, &mut tracker).unwrap();
    assert_eq!(position.pos(), 2);
    let top = stack.peek().unwrap();
    assert_eq!((top.start(), top.end()), (0, 2));
    assert_eq!(span_text(top), "ab");
    assert!(matcher.try_parse_with(plain(), position, &mut stack, &mut tracker).is_none());
    assert_eq!(stack.len(), 1);
}

#[test]
fn peek_matches_the_top_and_keeps_it() {
    let matcher = seq(vec![push(lit("ab")), Matcher::Peek, Matcher::Peek]);
    assert_eq!(end(&matcher, &chars_of("ababab")), Some(6));
    let error = failure(&matcher, &chars_of("ababax"));
    assert_eq!(error.offset, 5);
    assert_eq!(error.expected, vec![literal("ab")]);
    let error = failure(&Matcher::Peek, &chars_of("a"));
    assert_eq!(error.expected, vec![Failure::EmptyStack]);
}

#[test]
fn pop_matches_the_top_and_takes_it_off() {
    let matcher = seq(vec![push(lit("a")), push(lit("b")), Matcher::Pop, Matcher::Pop]);
    assert_eq!(end(&matcher, &chars_of("abba")), Some(4));
    let twice = seq(vec![push(lit("a")), Matcher::Pop, Matcher::Pop]);
    let error = failure(&twice, &chars_of("aaa"));
    assert_eq!(error.offset, 2);
    assert_eq!(error.expected, vec![Failure::EmptyStack]);
}

#[test]
fn pop_keeps_the_top_where_the_input_does_not_match() {
    let input = chars_of("ax");
    let mut stack: Stack<Span> = Stack::new();
    let start = Position::from_start(&input);
    let mut tracker = Tracker::new(start);
    let (position, _) =
        push(lit("a")).try_parse_with(plain(), start, &mut stack, &mut tracker).unwrap();
    assert!(Matcher::Pop.try_parse_with(plain(), position, &mut stack, &mut tracker).is_none());
    assert_eq!(stack.len(), 1);
}

#[test]
fn drop_takes_the_top_off_without_matching() {
    let matcher = seq(vec![push(lit("a")), push(lit("b")), Matcher::Drop, Matcher::Peek]);
    assert_eq!(end(&matcher, &chars_of("aba")), Some(3));
    let error = failure(&Matcher::Drop, &chars_of("a"));
    assert_eq!(error.offset, 0);
    assert_eq!(error.expected, vec![Failure::EmptyStack]);
}

#[test]
fn peek_all_matches_from_the_top_down() {
    let matcher = seq(vec![push(lit("a")), push(lit("b")), push(lit("c")), Matcher::PeekAll]);
    assert_eq!(end(&matcher, &chars_of("abccba")), Some(6));
    assert_eq!(end(&matcher, &chars_of("abcabc")), None);
    let error = failure(&matcher, &chars_of("abccbx"));
    assert_eq!(error.offset, 5);
    assert_eq!(error.expected, vec![literal("a")]);
    assert_eq!(end(&Matcher::PeekAll, &chars_of("x")), Some(0));
}

#[test]
fn pop_all_empties_the_stack_after_a_match() {
    let matcher = seq(vec![push(lit("a")), push(lit("b")), Matcher::PopAll, Matcher::Peek]);
    let error = failure(&matcher, &chars_of("abbab"));
    assert_eq!(error.offset, 4);
    assert_eq!(error.expected, vec![Failure::EmptyStack]);
    let kept = seq(vec![push(lit("a")), opt(Matcher::PopAll), Matcher::Peek]);
    assert_eq!(end(&kept, &chars_of("axa")), None);
    assert_eq!(end(&kept, &chars_of("aa")), None);
    let kept = seq(vec![push(lit("a")), opt(seq(vec![lit("x"), Matcher::PopAll])), Matcher::Peek]);
    assert_eq!(end(&kept, &chars_of("aa")), Some(2));
}

#[test]
fn peek_slice_out_of_bound_is_an_error() {
    let matcher = seq(vec![
        push(lit("a")),
        Matcher::PeekSlice2(PeekSlice2 { start: 0, end: 2 }),
    ]);
    let error = failure(&matcher, &chars_of("aa"));
    assert_eq!(error.offset, 1);
    assert_eq!(error.expected, vec![Failure::SliceOutOfBound(0, Some(2))]);
    let matcher = Matcher::PeekSlice1(PeekSlice1 { start: -1 });
    let error = failure(&matcher, &chars_of("aa"));
    assert_eq!(error.expected, vec![Failure::SliceOutOfBound(-1, None)]);
}

#[test]
fn peek_slice_takes_a_part_of_the_stack() {
    let pushes = || vec![push(lit("a")), push(lit("b")), push(lit("c"))];
    let with = |start, end, rest: &str| {
        let mut members = pushes();
        members.push(Matcher::PeekSlice2(PeekSlice2 { start, end }));
        let input = chars_of(&format!("abc{}", rest));
        end_of(&seq(members), &input)
    };
    fn end_of(matcher: &Matcher, input: &[char]) -> Option<usize> {
        parse(matcher, &Grammar::new(), input).ok().map(|_| input.len())
    }
    assert_eq!(with(0, 3, "cba"), Some(6));
    assert_eq!(with(0, 2, "ba"), Some(5));
    assert_eq!(with(1, 3, "cb"), Some(5));
    assert_eq!(with(1, -1, "b"), Some(4));
    assert_eq!(with(-2, -1, "b"), Some(4));
    assert_eq!(with(2, 1, ""), Some(3));
    assert_eq!(with(1, 1, ""), Some(3));
    assert_eq!(with(0, 3, "abc"), None);
}

#[test]
fn rule_nests_failures_and_emits_what_it_is_told() {
    let inner = rule(2, lit("b"));
    let outer = rule(1, seq(vec![lit("a"), inner]));
    let error = failure(&outer, &chars_of("ax"));
    assert_eq!(error.offset, 1);
    assert_eq!(error.expected, vec![nested(1, nested(2, literal("b")))]);
    assert_eq!(error.expected[0].rules(), vec![1, 2]);

    let input = chars_of("ab");
    let emitted = |emission| {
        let rule = Rule { id: 5, emission, content: Box::new(lit("ab")) };
        match parse(&rule, &Grammar::new(), &input).unwrap() {
            MatchNode::Rule { id, span, content } => {
                assert_eq!(id, 5);
                (span.map(|s| (s.start(), s.end())), content.is_some())
            }
            _ => panic!("a rule was expected"),
        }
    };
    assert_eq!(emitted(Emission::InnerToken), (Some((0, 2)), true));
    assert_eq!(emitted(Emission::Span), (Some((0, 2)), false));
    assert_eq!(emitted(Emission::Silent), (None, true));
}

#[test]
fn emission_says_what_a_rule_keeps() {
    assert!(Emission::InnerToken.emit_content());
    assert!(Emission::Silent.emit_content());
    assert!(!Emission::Span.emit_content());
    assert!(Emission::InnerToken.emit_span());
    assert!(Emission::Span.emit_span());
    assert!(!Emission::Silent.emit_span());
}

#[test]
fn rules_leave_the_rule_chain_as_they_found_it() {
    let matcher = seq(vec![opt(rule(1, lit("x"))), rule(2, lit("y"))]);
    let error = failure(&matcher, &chars_of("z"));
    assert_eq!(error.expected, vec![nested(1, literal("x")), nested(2, literal("y"))]);
}

#[test]
fn silent_keeps_the_failures_of_its_body_to_itself() {
    let body = seq(vec![lit("ab"), choice(lit("c"), lit("d"))]);
    let quiet = Matcher::Silent(Silent { content: Box::new(body) });
    let input = chars_of("abd");
    let (position, node) = parse_partial(&quiet, &Grammar::new(), &input).unwrap();
    assert_eq!(position.pos(), 3);
    match &node {
        MatchNode::Silent(span) => assert_eq!(span_text(span), "abd"),
        _ => panic!("a span was expected"),
    }
    assert_eq!(node.span().map(|s| s.end()), Some(3));
    let error = failure(&quiet, &chars_of("abx"));
    assert_eq!(error.offset, 2);
    assert_eq!(error.expected, vec![Failure::PredicateFailed { positive: true }]);
    let whole = seq(vec![quiet, lit("!")]);
    let error = failure(&whole, &chars_of("abd?"));
    assert_eq!(error.offset, 3);
    assert_eq!(error.expected, vec![literal("!")]);
}

#[test]
fn ignored_text_is_whitespace_and_comments_in_turns() {
    let whitespace = choice(lit(" "), lit("\n"));
    let comment = seq(vec![lit("#"), Matcher::Skip(Skip { strings: vec![chars_of("\n")] })]);
    let grammar = Grammar::with_ignored(whitespace, comment);
    let input = chars_of("  # one\n # two\n\nx");
    let (position, node) = grammar.ignored.parse_partial(&grammar, &input);
    assert_eq!(position.pos(), 16);
    assert_eq!(node.span().map(|s| (s.start(), s.end())), Some((0, 16)));
    let words = seq(vec![lit("a"), lit("b")]);
    // A comment that no line feed ends is no comment.
    assert!(parse(&words, &grammar, &chars_of("a # c\n  b # end")).is_err());
    assert!(parse(&words, &grammar, &chars_of("a # c\n  b # end\n")).is_ok());
    assert!(parse(&words, &grammar, &chars_of("a # c\n  b  ")).is_ok());
    assert!(parse(&words, &grammar, &chars_of("a # b")).is_err());
}

#[test]
fn ignored_text_that_matches_nothing_ends_the_skipping() {
    let grammar = Grammar::with_ignored(opt(lit(" ")), Matcher::Empty);
    let words = seq(vec![lit("a"), lit("b")]);
    assert!(parse(&words, &grammar, &chars_of("a   b ")).is_ok());
    assert!(parse(&words, &grammar, &chars_of("ab")).is_ok());
}

#[test]
fn nothing_is_skipped_inside_ignored_text() {
    let pair = Matcher::NonAtomicRule(NonAtomicRule {
        id: 9,
        emission: Emission::Silent,
        content: Box::new(seq(vec![lit("-"), lit("-")])),
    });
    let grammar = Grammar::with_ignored(choice(lit(" "), pair), Matcher::AlwaysFail);
    let words = seq(vec![lit("a"), lit("b")]);
    assert!(parse(&words, &grammar, &chars_of("a -- b")).is_ok());
    assert!(parse(&words, &grammar, &chars_of("a - - b")).is_err());
}

#[test]
fn skipping_is_off_where_the_context_is_atomic() {
    let ign = Ign {
        whitespace: Matcher::CharRange(CharRange { min: ' ', max: ' ' }),
        comment: Matcher::AlwaysFail,
    };
    let input = chars_of("  x");
    let start = Position::from_start(&input);
    let mut stack: Stack<Span> = Stack::new();
    let mut tracker = Tracker::new(start);
    let atomic = Context { atomic: true, ..plain() };
    let (position, _) = ign.parse_with(atomic, start, &mut stack, &mut tracker);
    assert_eq!(position.pos(), 0);
    let (position, _) = ign.parse_with(plain(), start, &mut stack, &mut tracker);
    assert_eq!(position.pos(), 2);
    assert_eq!(atomic.with_atomic(false), plain());
    assert_eq!(plain().within_ignored(), atomic);
}

#[test]
fn matchers_report_what_they_were_made_with() {
    let foo = Str::new("foo");
    assert_eq!(foo.content(), &chars_of("foo")[..]);
    assert_eq!(foo.get_content(), &chars_of("foo")[..]);
    assert_eq!(Insens::new("Bar").get_content(), &chars_of("Bar")[..]);
    let skip = Skip { strings: vec![chars_of("a"), chars_of("bc")] };
    assert_eq!(skip.contents(), &[chars_of("a"), chars_of("bc")][..]);
    assert_eq!(skip.get_content().len(), 2);
    let rule = AtomicRule { id: 3, emission: Emission::Span, content: Box::new(lit("x")) };
    assert_eq!(rule.rule_id(), 3);
    assert_eq!(rule.rule(), 3);
    assert_eq!(rule.ref_inner(), &lit("x"));
    assert_eq!(rule.take_inner(), lit("x"));
}

#[test]
fn every_kind_of_matcher_can_be_the_root_of_a_parse() {
    let input = chars_of("a");
    assert!(lit("a").try_parse(&Grammar::new(), &input).is_ok());
    let (position, _) = lit("a").try_parse_partial(&Grammar::new(), &input).unwrap();
    assert_eq!(position.pos(), 1);
    assert!(parse(&ANY, &Grammar::new(), &input).is_ok());
    assert!(parse(&SOI, &Grammar::new(), &input).is_err());
    assert!(parse(&EOI, &Grammar::new(), &input).is_err());
    assert!(parse(&NEWLINE, &Grammar::new(), &input).is_err());
    assert!(parse(&AlwaysFail, &Grammar::new(), &input).is_err());
    assert!(parse(&Empty, &Grammar::new(), &input).is_err());
    assert!(parse(&Empty, &Grammar::new(), &chars_of("")).is_ok());
    assert_eq!(Empty.parse(&Grammar::new(), &input), MatchNode::Empty);
    let maybe = Opt { content: Box::new(lit("b")) };
    assert_eq!(maybe.parse(&Grammar::new(), &input), MatchNode::Opt(None));
    let (position, node) = maybe.parse_partial(&Grammar::new(), &input);
    assert_eq!(position.pos(), 0);
    assert_eq!(node.children().len(), 0);
}

#[test]
fn nodes_copy_by_content() {
    let matcher = rule(1, seq(vec![opt(lit("a")), rep(choice(lit("b"), lit("c")))]));
    let input = chars_of("abcb");
    let node = parse(&matcher, &Grammar::new(), &input).unwrap();
    let copy = node.duplicate();
    assert_eq!(node, copy);
    assert_eq!(node.clone(), copy);
    assert_eq!(node.children().len(), 1);
    assert_eq!(node.children()[0].children().len(), 2);
    assert_eq!(node.children()[0].children()[1].children().len(), 3);
}

#[test]
fn builders_make_the_trees_they_name() {
    assert_eq!(Matcher::literal("ab"), lit("ab"));
    assert_eq!(Matcher::insensitive("ab"), Matcher::Insens(Insens::new("ab")));
    assert_eq!(Matcher::range('a', 'z'), Matcher::CharRange(CharRange { min: 'a', max: 'z' }));
    assert_eq!(Matcher::sequence(vec![lit("a"), lit("b")]), seq(vec![lit("a"), lit("b")]));
    assert_eq!(Matcher::choice(lit("a"), lit("b")), choice(lit("a"), lit("b")));
    assert_eq!(Matcher::optional(lit("a")), opt(lit("a")));
    assert_eq!(Matcher::repeat(lit("a")), rep(lit("a")));
    assert_eq!(Matcher::positive(lit("a")), ahead(lit("a")));
    assert_eq!(Matcher::negative(lit("a")), not(lit("a")));
    assert_eq!(Matcher::push(lit("a")), push(lit("a")));
    assert_eq!(
        Matcher::restorable(lit("a")),
        Matcher::Restorable(Restorable { content: Box::new(lit("a")) })
    );
    assert_eq!(Matcher::rule(4, None, Emission::InnerToken, lit("a")), rule(4, lit("a")));
    assert_eq!(
        Matcher::rule(4, Some(true), Emission::Span, lit("a")),
        Matcher::AtomicRule(AtomicRule {
            id: 4,
            emission: Emission::Span,
            content: Box::new(lit("a"))
        })
    );
    assert_eq!(
        Matcher::rule(4, Some(false), Emission::Silent, lit("a")),
        Matcher::NonAtomicRule(NonAtomicRule {
            id: 4,
            emission: Emission::Silent,
            content: Box::new(lit("a"))
        })
    );
}
