use pest_typed::position::to_lower;
use pest_typed::{chars_of, match_char_by, Position, Span};

#[test]
fn position_starts_at_zero() {
    let input = chars_of("ab");
    let start = Position::from_start(&input);
    assert_eq!(start.pos(), 0);
    assert!(start.at_start());
    assert!(!start.at_end());
    assert_eq!(start.input(), &input[..]);
}

#[test]
fn position_of_empty_input_is_at_both_ends() {
    let input = chars_of("");
    let start = Position::from_start(&input);
    assert!(start.at_start());
    assert!(start.at_end());
}

#[test]
fn position_beyond_the_end_is_rejected() {
    let input = chars_of("ab");
    assert!(Position::new(&input, 0).is_some());
    assert!(Position::new(&input, 2).is_some());
    assert!(Position::new(&input, 2).unwrap().at_end());
    assert!(Position::new(&input, 3).is_none());
    assert!(Position::new(&input, usize::MAX).is_none());
}

#[test]
fn match_literal_advances_past_the_literal() {
    let input = chars_of("foobar");
    let mut position = Position::from_start(&input);
    assert!(position.match_literal(&chars_of("foo")));
    assert_eq!(position.pos(), 3);
    assert!(position.match_literal(&chars_of("")));
    assert_eq!(position.pos(), 3);
    assert!(position.match_literal(&chars_of("bar")));
    assert!(position.at_end());
}

#[test]
fn match_literal_leaves_the_position_on_failure() {
    let input = chars_of("foobar");
    let mut position = Position::from_start(&input);
    assert!(!position.match_literal(&chars_of("fob")));
    assert_eq!(position.pos(), 0);
    assert!(!position.match_literal(&chars_of("foobarbaz")));
    assert_eq!(position.pos(), 0);
    assert!(!position.match_literal(&chars_of("Foo")));
    assert_eq!(position.pos(), 0);
}

#[test]
fn common_prefix_counts_agreeing_characters() {
    let input = chars_of("abcdef");
    let mut position = Position::from_start(&input);
    assert_eq!(position.common_prefix(&chars_of("abx")), 2);
    assert_eq!(position.common_prefix(&chars_of("abcdefgh")), 6);
    assert_eq!(position.common_prefix(&chars_of("")), 0);
    assert_eq!(position.common_prefix(&chars_of("x")), 0);
    assert!(position.skip(4));
    assert_eq!(position.common_prefix(&chars_of("efg")), 2);
    assert_eq!(position.common_prefix_ci(&chars_of("EFg")), 2);
}

#[test]
fn match_literal_ci_returns_the_text_that_stood_there() {
    let input = chars_of("FoO bar");
    let mut position = Position::from_start(&input);
    let span = position.match_literal_ci(&chars_of("foo")).unwrap();
    assert_eq!(span.as_slice(), &['F', 'o', 'O'][..]);
    assert_eq!(span.start(), 0);
    assert_eq!(span.end(), 3);
    assert_eq!(position.pos(), 3);
    assert!(position.match_literal_ci(&chars_of("BAR")).is_none());
    assert_eq!(position.pos(), 3);
}

#[test]
fn case_folding_touches_ascii_letters_only() {
    assert_eq!(to_lower('A'), 'a');
    assert_eq!(to_lower('Z'), 'z');
    assert_eq!(to_lower('a'), 'a');
    assert_eq!(to_lower('@'), '@');
    assert_eq!(to_lower('['), '[');
    assert_eq!(to_lower('0'), '0');
    assert_eq!(to_lower('É'), 'É');
    let input = chars_of("É");
    let mut position = Position::from_start(&input);
    assert!(position.match_literal_ci(&chars_of("é")).is_none());
}

#[test]
fn match_char_in_range_includes_both_bounds() {
    let input = chars_of("adz");
    let mut position = Position::from_start(&input);
    assert_eq!(position.match_char_in_range('a', 'd'), Some('a'));
    assert_eq!(position.match_char_in_range('a', 'd'), Some('d'));
    assert_eq!(position.match_char_in_range('a', 'd'), None);
    assert_eq!(position.pos(), 2);
    assert_eq!(position.match_char_in_range('z', 'z'), Some('z'));
    assert_eq!(position.match_char_in_range('a', 'z'), None);
    assert!(position.at_end());
}

#[test]
fn match_char_in_empty_range_fails() {
    let input = chars_of("b");
    let mut position = Position::from_start(&input);
    assert_eq!(position.match_char_in_range('c', 'a'), None);
    assert_eq!(position.pos(), 0);
}

#[test]
fn match_any_char_fails_only_at_the_end() {
    let input = chars_of("é!");
    let mut position = Position::from_start(&input);
    assert_eq!(position.match_any_char(), Some('é'));
    assert_eq!(position.match_any_char(), Some('!'));
    assert_eq!(position.match_any_char(), None);
    assert_eq!(position.pos(), 2);
}

#[test]
fn match_char_by_asks_the_predicate() {
    let input = chars_of("a1");
    let mut position = Position::from_start(&input);
    assert_eq!(match_char_by(&mut position, |c| c.is_ascii_digit()), None);
    assert_eq!(position.pos(), 0);
    assert_eq!(match_char_by(&mut position, |c| c.is_ascii_alphabetic()), Some('a'));
    assert_eq!(position.pos(), 1);
    assert!(position.match_char_by(|c| c == '1'));
    assert!(!position.match_char_by(|_| true));
    assert_eq!(match_char_by(&mut position, |_| true), None);
}

#[test]
fn skip_moves_by_characters() {
    let input = chars_of("héllo");
    let mut position = Position::from_start(&input);
    assert!(position.skip(2));
    assert_eq!(position.pos(), 2);
    assert!(!position.skip(4));
    assert_eq!(position.pos(), 2);
    assert!(position.skip(3));
    assert!(position.at_end());
    assert!(position.skip(0));
    assert!(!position.skip(1));
}

#[test]
fn skip_until_stops_before_the_delimiter() {
    let input = chars_of("ab*/cd");
    let delimiters = vec![chars_of("*/"), chars_of("cd")];
    let mut position = Position::from_start(&input);
    assert!(position.skip_until(&delimiters));
    assert_eq!(position.pos(), 2);
    assert!(position.starts_with_one_of(&delimiters));
    assert!(position.skip_until(&delimiters));
    assert_eq!(position.pos(), 2);
}

#[test]
fn skip_until_fails_at_the_end_of_the_input() {
    let input = chars_of("abc");
    let mut position = Position::from_start(&input);
    assert!(!position.skip_until(&[chars_of("x")]));
    assert_eq!(position.pos(), 0);
    assert!(!position.skip_until(&[]));
    assert!(position.skip(3));
    assert!(!position.skip_until(&[chars_of("")]));
}

#[test]
fn span_to_covers_the_text_between() {
    let input = chars_of("hello world");
    let start = Position::new(&input, 6).unwrap();
    let end = Position::new(&input, 11).unwrap();
    let span = start.span_to(&end);
    assert_eq!(span.start(), 6);
    assert_eq!(span.end(), 11);
    assert_eq!(span.len(), 5);
    assert!(!span.is_empty());
    assert_eq!(span.as_slice(), &chars_of("world")[..]);
    assert_eq!(span.input(), &input[..]);
    assert_eq!(span.char_at(0), Some('w'));
    assert_eq!(span.char_at(4), Some('d'));
    assert_eq!(span.char_at(5), None);
    let empty = start.span_to(&start);
    assert!(empty.is_empty());
    assert_eq!(empty.len(), 0);
}

#[test]
fn span_ends_never_before_it_starts() {
    let input = chars_of("abc");
    assert!(Span::new(&input, 1, 3).is_some());
    assert!(Span::new(&input, 3, 3).is_some());
    assert!(Span::new(&input, 2, 1).is_none());
    assert!(Span::new(&input, 1, 4).is_none());
}

#[test]
fn line_and_column_count_from_one() {
    let input = chars_of("ab\ncd\n\nef");
    let at = |pos| Position::new(&input, pos).unwrap().line_col();
    assert_eq!(at(0), (1, 1));
    assert_eq!(at(1), (1, 2));
    assert_eq!(at(2), (1, 3));
    assert_eq!(at(3), (2, 1));
    assert_eq!(at(5), (2, 3));
    assert_eq!(at(6), (3, 1));
    assert_eq!(at(7), (4, 1));
    assert_eq!(at(9), (4, 3));
}

#[test]
fn line_feed_after_carriage_return_starts_one_line() {
    let input = chars_of("a\r\nb");
    let at = |pos| Position::new(&input, pos).unwrap().line_col();
    assert_eq!(at(1), (1, 2));
    assert_eq!(at(3), (2, 1));
    assert_eq!(at(4), (2, 2));
}

#[test]
fn positions_compare_by_buffer_and_offset() {
    let input = chars_of("ab");
    let a = Position::new(&input, 1).unwrap();
    let mut b = Position::from_start(&input);
    assert_ne!(a, b);
    assert!(b.skip(1));
    assert_eq!(a, b);
    let copy = a;
    assert_eq!(copy, a);
}
