use pest_typed::{
    chars_of, parse, parse_partial, parse_without_ignore, AtomicRule, CharRange, Choice, Either,
    Emission, Failure, Grammar, MatchNode, Matcher, NonAtomicRule, Opt, PeekSlice1, Positive,
    Push, Rep, Rule, Sequence, Str,
};

fn lit(s: &str) -> Matcher {
    Matcher::Str(Str::new(s))
}

fn seq(content: Vec<Matcher>) -> Matcher {
    Matcher::Sequence(Sequence { content })
}

fn choice(first: Matcher, second: Matcher) -> Matcher {
    Matcher::Choice(Either { first: Box::new(first), second: Box::new(second) })
}

fn push(content: Matcher) -> Matcher {
    Matcher::Push(Push { content: Box::new(content) })
}

fn spaces() -> Grammar {
    Grammar::with_ignored(Matcher::CharRange(CharRange { min: ' ', max: ' ' }), Matcher::AlwaysFail)
}

fn causes(error: &pest_typed::Error) -> Vec<Failure> {
    error.expected.iter().map(|f| f.cause().clone()).collect()
}

#[test]
fn parse_succeeds_iff_the_input_is_consumed() {
    let rule = lit("ab");
    let plain = Grammar::new();
    assert!(parse(&rule, &plain, &chars_of("ab")).is_ok());
    assert!(parse(&rule, &plain, &chars_of("abc")).is_err());
    assert!(parse(&rule, &plain, &chars_of("a")).is_err());
    assert!(parse(&rule, &plain, &chars_of("")).is_err());
    assert!(parse(&rule, &plain, &chars_of("ab ")).is_err());
    assert!(parse(&rule, &spaces(), &chars_of("ab  ")).is_ok());
    assert!(parse(&rule, &spaces(), &chars_of("ab  c")).is_err());
    assert!(parse_without_ignore(&rule, &spaces(), &chars_of("ab")).is_ok());
    assert!(parse_without_ignore(&rule, &spaces(), &chars_of("ab ")).is_err());
}

#[test]
fn unconsumed_suffix_is_reported_where_it_starts() {
    let input = chars_of("abc");
    let error = parse(&lit("ab"), &Grammar::new(), &input).unwrap_err();
    assert_eq!(error.offset, 2);
    assert_eq!(error.line, 1);
    assert_eq!(error.column, 3);
    assert_eq!(error.expected, vec![Failure::PredicateFailed { positive: false }]);
    assert_eq!(error.predicate, Some(false));
}

#[test]
fn partial_parse_returns_the_position_reached() {
    let input = chars_of("abc");
    let (position, node) = parse_partial(&lit("ab"), &Grammar::new(), &input).unwrap();
    assert_eq!(position.pos(), 2);
    match node {
        MatchNode::Str(span) => {
            assert_eq!(span.start(), 0);
            assert_eq!(span.end(), 2);
        }
        _ => panic!("a literal was expected"),
    }
}

#[test]
fn ordered_choice_is_not_longest_match() {
    let rule = choice(lit("a"), lit("ab"));
    let input = chars_of("ab");
    let (position, node) = parse_partial(&rule, &Grammar::new(), &input).unwrap();
    assert_eq!(position.pos(), 1);
    match node {
        MatchNode::Choice(chosen) => {
            assert!(chosen.get_first().is_some());
            assert!(chosen.get_second().is_none());
            match chosen {
                Choice::First(first) => match *first {
                    MatchNode::Str(span) => assert_eq!(span.as_slice(), &['a'][..]),
                    _ => panic!("a literal was expected"),
                },
                Choice::Second(_) => panic!("the first alternative was expected"),
            }
        }
        _ => panic!("a choice was expected"),
    }
    assert!(parse(&rule, &Grammar::new(), &input).is_err());
}

#[test]
fn second_alternative_starts_where_the_first_started() {
    let rule = choice(lit("ax"), lit("ab"));
    let input = chars_of("ab");
    let (position, node) = parse_partial(&rule, &Grammar::new(), &input).unwrap();
    assert_eq!(position.pos(), 2);
    match node {
        MatchNode::Choice(chosen) => {
            assert!(chosen.get_first().is_none());
            assert!(chosen.get_second().is_some());
        }
        _ => panic!("a choice was expected"),
    }
}

#[test]
fn repetition_of_an_optional_runs_into_the_limit() {
    let rule = Matcher::Rep(Rep {
        content: Box::new(Matcher::Opt(Opt { content: Box::new(lit("x")) })),
    });
    let input = chars_of("xxxy");
    let error = parse_partial(&rule, &Grammar::new(), &input).unwrap_err();
    assert_eq!(error.offset, 3);
    assert_eq!(error.expected, vec![Failure::UnmatchedLiteral(chars_of("x")), Failure::RepeatLimitExceeded]);
    let small = Grammar { repeat_limit: 5, ..Grammar::new() };
    let error = parse_partial(&rule, &small, &input).unwrap_err();
    assert!(error.expected.contains(&Failure::RepeatLimitExceeded));
}

#[test]
fn repetition_within_the_limit_succeeds() {
    let rule = Matcher::Rep(Rep { content: Box::new(lit("x")) });
    let grammar = Grammar { repeat_limit: 3, ..Grammar::new() };
    for (input, count) in [("", 0), ("x", 1), ("xx", 2), ("xxx", 3)] {
        let input = chars_of(input);
        match parse(&rule, &grammar, &input).unwrap() {
            MatchNode::Rep(nodes) => assert_eq!(nodes.len(), count),
            _ => panic!("a repetition was expected"),
        }
    }
    let error = parse(&rule, &grammar, &chars_of("xxxx")).unwrap_err();
    assert_eq!(error.offset, 4);
    assert_eq!(error.expected, vec![Failure::RepeatLimitExceeded]);
}

#[test]
fn usual_limit_allows_a_thousand_and_twenty_four_matches() {
    let rule = Matcher::Rep(Rep { content: Box::new(lit("x")) });
    let fits: Vec<char> = std::iter::repeat('x').take(1024).collect();
    let exceeds: Vec<char> = std::iter::repeat('x').take(1025).collect();
    assert!(parse(&rule, &Grammar::new(), &fits).is_ok());
    let error = parse(&rule, &Grammar::new(), &exceeds).unwrap_err();
    assert_eq!(error.offset, 1025);
    assert_eq!(error.expected, vec![Failure::RepeatLimitExceeded]);
}

#[test]
fn push_inside_a_lookahead_is_undone() {
    let guarded = seq(vec![
        Matcher::Positive(Positive { content: Box::new(push(lit("a"))) }),
        Matcher::Peek,
    ]);
    let input = chars_of("a");
    let error = parse_partial(&guarded, &Grammar::new(), &input).unwrap_err();
    assert_eq!(causes(&error), vec![Failure::EmptyStack]);
    assert_eq!(error.offset, 0);

    let plain = seq(vec![push(lit("a")), Matcher::Peek]);
    let input = chars_of("aa");
    match parse(&plain, &Grammar::new(), &input).unwrap() {
        MatchNode::Sequence(nodes) => match &nodes[1] {
            MatchNode::Peek(span) => {
                assert_eq!(span.start(), 1);
                assert_eq!(span.end(), 2);
                assert_eq!(span.as_slice(), &['a'][..]);
            }
            _ => panic!("a peek was expected"),
        },
        _ => panic!("a sequence was expected"),
    }
}

#[test]
fn atomicity_suppresses_skipping() {
    let body = || Box::new(seq(vec![lit("a"), lit("b")]));
    let atomic =
        AtomicRule { id: 0, emission: Emission::InnerToken, content: body() };
    let non_atomic =
        NonAtomicRule { id: 0, emission: Emission::InnerToken, content: body() };
    let input = chars_of("a b");
    assert!(parse(&atomic, &spaces(), &input).is_err());
    assert!(parse(&non_atomic, &spaces(), &input).is_ok());
    assert!(parse(&atomic, &spaces(), &chars_of("ab")).is_ok());
}

#[test]
fn atomicity_is_inherited_and_overridden() {
    let body = || Box::new(seq(vec![lit("a"), lit("b")]));
    let inherit = |id| Matcher::Rule(Rule { id, emission: Emission::InnerToken, content: body() });
    let input = chars_of("a b");
    // At the top nothing is atomic, and a plain rule inherits that.
    assert!(parse(&inherit(1), &spaces(), &input).is_ok());
    // Inside an atomic rule a plain rule inherits atomicity.
    let atomic = AtomicRule { id: 0, emission: Emission::InnerToken, content: Box::new(inherit(1)) };
    assert!(parse(&atomic, &spaces(), &input).is_err());
    // A non-atomic rule switches the skipping on again, however deep.
    let reopened = AtomicRule {
        id: 0,
        emission: Emission::InnerToken,
        content: Box::new(Matcher::NonAtomicRule(NonAtomicRule {
            id: 1,
            emission: Emission::InnerToken,
            content: body(),
        })),
    };
    assert!(parse(&reopened, &spaces(), &input).is_ok());
}

#[test]
fn furthest_failure_is_reported() {
    let rule = choice(lit("abc"), lit("abd"));
    let input = chars_of("abx");
    let error = parse(&rule, &Grammar::new(), &input).unwrap_err();
    assert_eq!(error.offset, 2);
    assert_eq!(error.line, 1);
    assert_eq!(error.column, 3);
    assert_eq!(
        error.expected,
        vec![Failure::UnmatchedLiteral(chars_of("abc")), Failure::UnmatchedLiteral(chars_of("abd"))]
    );
    assert!(error.expects(&Failure::UnmatchedLiteral(chars_of("abc"))));
    assert!(error.expects(&Failure::UnmatchedLiteral(chars_of("abd"))));
    assert_eq!(error.predicate, None);
}

#[test]
fn nearer_failures_are_dropped() {
    let rule = choice(lit("abc"), lit("x"));
    let input = chars_of("abd");
    let error = parse(&rule, &Grammar::new(), &input).unwrap_err();
    assert_eq!(error.offset, 2);
    assert_eq!(error.expected, vec![Failure::UnmatchedLiteral(chars_of("abc"))]);
}

#[test]
fn stack_slice_indexing() {
    let pushes = || vec![push(lit("a")), push(lit("b")), push(lit("c"))];
    let mut all = pushes();
    all.push(Matcher::PeekSlice1(PeekSlice1 { start: 0 }));
    let input = chars_of("abccba");
    let (position, node) = parse_partial(&seq(all), &Grammar::new(), &input).unwrap();
    assert_eq!(position.pos(), 6);
    match node {
        MatchNode::Sequence(nodes) => match &nodes[3] {
            MatchNode::PeekSlice(span) => assert_eq!(span.as_slice(), &['c', 'b', 'a'][..]),
            _ => panic!("a slice was expected"),
        },
        _ => panic!("a sequence was expected"),
    }

    // A negative index counts back from the top: the last entry alone is
    // the one pushed last.
    let mut last = pushes();
    last.push(Matcher::PeekSlice1(PeekSlice1 { start: -1 }));
    let last = seq(last);
    let input = chars_of("abccba");
    let (position, _) = parse_partial(&last, &Grammar::new(), &input).unwrap();
    assert_eq!(position.pos(), 4);
    assert!(parse_partial(&last, &Grammar::new(), &chars_of("abca")).is_err());

    // Counted from the bottom, the first entry alone is the one pushed
    // first.
    let mut first = pushes();
    first.push(Matcher::PeekSlice2(pest_typed::PeekSlice2 { start: 0, end: 1 }));
    let input = chars_of("abca");
    let (position, _) = parse_partial(&seq(first), &Grammar::new(), &input).unwrap();
    assert_eq!(position.pos(), 4);
}
