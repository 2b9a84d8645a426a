use pest_typed::{
    chars_of, parse, AtomicRule, BoundWrapper, CharRange, Emission, Grammar, MatchNode, Matcher,
    NonAtomicRule, ParsableTypedNode, Rep, Rule, RuleStruct, Sequence, Storage, Str,
};

const FOO: u32 = 0;
const REP_FOO: u32 = 1;
const WHITESPACE: u32 = 2;
const COMMENT: u32 = 3;
const TMP: u32 = 4;
const S4: u32 = 5;

fn name(id: u32) -> &'static str {
    match id {
        FOO => "StrFoo",
        REP_FOO => "R",
        WHITESPACE => "WHITESPACE",
        COMMENT => "COMMENT",
        TMP => "tmp",
        S4 => "s4",
        _ => unreachable!(),
    }
}

fn text(chars: &[char]) -> String {
    chars.iter().collect()
}

/// A node that the debugger writes as the value it stands for.
struct Shown<'a, 'i>(&'a MatchNode<'i>);

impl<'a, 'i> std::fmt::Debug for Shown<'a, 'i> {
    fn fmt(&self, f: &mut std::fmt::Formatter<'_>) -> std::fmt::Result {
        f.write_str(&debug(self.0))
    }
}

fn debug(node: &MatchNode) -> String {
    match node {
        MatchNode::Str(_) => "Str".to_string(),
        MatchNode::CharRange(c) => format!("CharRange {{ content: {:?} }}", c),
        MatchNode::Sequence(nodes) => {
            let parts: Vec<String> = nodes.iter().map(debug).collect();
            format!("Seq({})", parts.join(", "))
        }
        MatchNode::Rule { id, span, content } => {
            let mut out = format!("Rule {{ name: {:?}", name(*id));
            if let Some(content) = content {
                out.push_str(&format!(", content: {}", debug(content)));
            }
            if let Some(span) = span {
                out.push_str(&format!(
                    ", span: Span {{ str: {:?}, start: {}, end: {} }}",
                    text(span.as_slice()),
                    span.start(),
                    span.end()
                ));
            }
            out.push_str(" }");
            out
        }
        other => format!("{:?}", other),
    }
}

fn whitespace() -> AtomicRule {
    AtomicRule {
        id: WHITESPACE,
        emission: Emission::Span,
        content: Box::new(Matcher::CharRange(CharRange { min: ' ', max: ' ' })),
    }
}

fn comment() -> AtomicRule {
    AtomicRule {
        id: COMMENT,
        emission: Emission::InnerToken,
        content: Box::new(Matcher::CharRange(CharRange { min: '\t', max: '\t' })),
    }
}

fn grammar() -> Grammar {
    Grammar::with_ignored(Matcher::AtomicRule(whitespace()), Matcher::AtomicRule(comment()))
}

fn foo() -> Str {
    Str::new("foo")
}

fn str_foo() -> Rule {
    Rule { id: FOO, emission: Emission::InnerToken, content: Box::new(Matcher::Str(foo())) }
}

fn rep() -> Rep {
    Rep { content: Box::new(Matcher::Str(foo())) }
}

fn r() -> NonAtomicRule {
    NonAtomicRule {
        id: REP_FOO,
        emission: Emission::InnerToken,
        content: Box::new(Matcher::Rep(rep())),
    }
}

fn content<'a, 'i>(node: &'a MatchNode<'i>) -> &'a MatchNode<'i> {
    match node {
        MatchNode::Rule { content: Some(content), .. } => content,
        _ => panic!("a rule with content was expected"),
    }
}

fn matched_text(node: &MatchNode) -> String {
    match node {
        MatchNode::Str(span) => text(span.as_slice()),
        _ => panic!("a literal was expected"),
    }
}

#[test]
fn string() {
    let rule = str_foo();
    match rule.ref_inner() {
        Matcher::Str(inner) => assert_eq!(inner.get_content(), foo().get_content()),
        _ => panic!("a literal was expected"),
    }
    let input = chars_of("foo");
    let s = rule.try_parse(&grammar(), &input).unwrap();
    assert_eq!(matched_text(content(&s)), "foo");
    assert_eq!(
        format!("{:?}", Shown(&s)),
        r#"Rule { name: "StrFoo", content: Str, span: Span { str: "foo", start: 0, end: 3 } }"#
    )
}

#[test]
fn predefined_node_string() {
    let rule = str_foo();
    match rule.ref_inner() {
        Matcher::Str(inner) => assert_eq!(inner.get_content(), foo().get_content()),
        _ => panic!("a literal was expected"),
    }
    let input = chars_of("foo");
    let s = rule.try_parse(&grammar(), &input).unwrap();
    assert_eq!(matched_text(content(&s)), "foo");
}

#[test]
fn range() {
    let space = chars_of(" ");
    let whitespace = whitespace().try_parse(&grammar(), &space).unwrap();
    assert_eq!(
        format!("{:?}", Shown(&whitespace)),
        "Rule { name: \"WHITESPACE\", span: Span { str: \" \", start: 0, end: 1 } }"
    );
    let tab = chars_of("\t");
    let comment = comment().try_parse(&grammar(), &tab).unwrap();
    assert_eq!(
        format!("{:?}", Shown(&comment)),
        "Rule { name: \"COMMENT\", content: CharRange { content: '\\t' }, span: Span { str: \"\\t\", start: 0, end: 1 } }"
    );
}

#[test]
fn predefined_node_range() {
    whitespace().try_parse(&grammar(), &chars_of(" ")).unwrap();
    comment().try_parse(&grammar(), &chars_of("\t")).unwrap();
}

#[test]
fn ignore() {
    let tmp = Rule { id: TMP, emission: Emission::Silent, content: Box::new(Matcher::Ignored) };
    tmp.try_parse(&grammar(), &chars_of(" \t  ")).unwrap();
}

#[test]
fn predefined_node_ignore() {
    let rule =
        Rule { id: REP_FOO, emission: Emission::InnerToken, content: Box::new(Matcher::Ignored) };
    rule.try_parse(&grammar(), &chars_of(" \t  ")).unwrap();
}

#[test]
fn repetition() {
    let g = grammar();
    let input1 = chars_of("foofoofoo");
    let input2 = chars_of("foo foo foo");
    let input3 = chars_of("foo foo\tfoo");
    let rep1 = r().try_parse(&g, &input1).unwrap();
    let rep2 = r().try_parse(&g, &input2).unwrap();
    let rep3 = r().try_parse(&g, &input3).unwrap();
    assert_ne!(rep1, rep2);
    assert_ne!(rep1, rep3);
    let format = |rep: &MatchNode| -> String {
        content(rep).children().iter().map(|e| matched_text(e)).collect::<Vec<_>>().concat()
    };
    assert_eq!(format(&rep1), format(&rep2));
    assert_eq!(format(&rep1), format(&rep3));
    assert_eq!(rep().min(), 0);
}

#[test]
fn predefined_node_repetition() {
    let g = grammar();
    let rule =
        Rule { id: REP_FOO, emission: Emission::InnerToken, content: Box::new(Matcher::Rep(rep())) };
    rule.try_parse(&g, &chars_of("foofoofoo")).unwrap();
    rule.try_parse(&g, &chars_of("foo foo foo")).unwrap();
    rule.try_parse(&g, &chars_of("foo foo\tfoo")).unwrap();
}

#[test]
fn as_ref() {
    let members = vec!["a", "b", "c", "d"]
        .into_iter()
        .map(|s| Matcher::Str(Str::new(s)))
        .collect::<Vec<_>>();
    let rule = Rule {
        id: S4,
        emission: Emission::InnerToken,
        content: Box::new(Matcher::Sequence(Sequence { content: members })),
    };
    let input = chars_of("abcd");
    let s4 = parse(&rule, &Grammar::new(), &input).unwrap();
    let parts = content(&s4).children();
    let (a, b, c, d) = (parts[0], parts[1], parts[2], parts[3]);
    assert_eq!(matched_text(a), "a");
    assert_eq!(matched_text(b), "b");
    assert_eq!(matched_text(c), "c");
    assert_eq!(matched_text(d), "d");

    assert_eq!(
        &MatchNode::Sequence(vec![a.clone(), b.clone(), c.clone(), d.clone()]),
        content(&s4)
    );
    assert_eq!(&content(&s4).clone(), content(&s4));
    assert_eq!(
        format!("{:?}", Shown(content(&s4))),
        format!("Seq({:?}, {:?}, {:?}, {:?})", Shown(a), Shown(b), Shown(c), Shown(d))
    );
}
