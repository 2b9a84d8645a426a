use pest_typed::stack::normalize_index;
use pest_typed::{constrain_idxs, restore_on_none, OutOfBound, Stack};

fn filled(entries: &[i32]) -> Stack<i32> {
    let mut stack = Stack::new();
    for entry in entries {
        stack.push(*entry);
    }
    stack
}

#[test]
fn stack_is_last_in_first_out() {
    let mut stack = Stack::new();
    assert!(stack.is_empty());
    assert_eq!(stack.peek(), None);
    assert_eq!(stack.pop(), None);
    stack.push(1);
    stack.push(2);
    assert_eq!(stack.len(), 2);
    assert_eq!(stack.peek(), Some(&2));
    assert_eq!(stack.as_slice(), &[1, 2][..]);
    assert_eq!(stack.pop(), Some(2));
    assert_eq!(stack.pop(), Some(1));
    assert_eq!(stack.pop(), None);
    assert!(stack.is_empty());
}

#[test]
fn restore_discards_what_was_pushed_since_the_snapshot() {
    let mut stack = filled(&[1]);
    stack.snapshot();
    stack.push(2);
    stack.push(3);
    assert_eq!(stack.depth(), 1);
    stack.restore();
    assert_eq!(stack.as_slice(), &[1][..]);
    assert_eq!(stack.depth(), 0);
}

#[test]
fn clear_snapshot_keeps_what_was_pushed() {
    let mut stack = filled(&[1]);
    stack.snapshot();
    stack.push(2);
    stack.clear_snapshot();
    assert_eq!(stack.as_slice(), &[1, 2][..]);
    assert_eq!(stack.depth(), 0);
}

#[test]
fn snapshots_nest() {
    let mut stack = filled(&[1]);
    stack.snapshot();
    stack.push(2);
    stack.snapshot();
    stack.push(3);
    stack.snapshot();
    stack.push(4);
    assert_eq!(stack.depth(), 3);
    stack.restore();
    assert_eq!(stack.as_slice(), &[1, 2, 3][..]);
    stack.clear_snapshot();
    assert_eq!(stack.as_slice(), &[1, 2, 3][..]);
    stack.restore();
    assert_eq!(stack.as_slice(), &[1][..]);
    assert_eq!(stack.depth(), 0);
}

#[test]
fn restore_keeps_a_stack_that_became_shorter() {
    let mut stack = filled(&[1, 2, 3]);
    stack.snapshot();
    assert_eq!(stack.pop(), Some(3));
    assert_eq!(stack.pop(), Some(2));
    stack.restore();
    assert_eq!(stack.as_slice(), &[1][..]);
}

#[test]
fn restore_after_pop_and_push_cuts_back_to_the_saved_length() {
    let mut stack = filled(&[1, 2]);
    stack.snapshot();
    assert_eq!(stack.pop(), Some(2));
    stack.push(7);
    stack.push(8);
    stack.restore();
    assert_eq!(stack.as_slice(), &[1, 7][..]);
}

#[test]
fn clear_keeps_the_markers() {
    let mut stack = filled(&[1, 2]);
    stack.snapshot();
    stack.clear();
    assert!(stack.is_empty());
    assert_eq!(stack.depth(), 1);
    stack.restore();
    assert!(stack.is_empty());
}

#[test]
fn signed_indices_resolve_against_the_length() {
    assert_eq!(normalize_index(0, 3), Some(0));
    assert_eq!(normalize_index(2, 3), Some(2));
    assert_eq!(normalize_index(3, 3), Some(3));
    assert_eq!(normalize_index(4, 3), None);
    assert_eq!(normalize_index(-1, 3), Some(2));
    assert_eq!(normalize_index(-3, 3), Some(0));
    assert_eq!(normalize_index(-4, 3), None);
    assert_eq!(normalize_index(0, 0), Some(0));
    assert_eq!(normalize_index(-1, 0), None);
    assert_eq!(normalize_index(i32::MIN, 3), None);
    assert_eq!(normalize_index(i32::MAX, 3), None);
    assert_eq!(normalize_index(i32::MAX, usize::MAX), Some(i32::MAX as usize));
}

#[test]
fn signed_ranges_resolve_against_the_length() {
    assert_eq!(constrain_idxs(0, None, 3), Some((0, 3)));
    assert_eq!(constrain_idxs(-1, None, 3), Some((2, 3)));
    assert_eq!(constrain_idxs(1, Some(-1), 3), Some((1, 2)));
    assert_eq!(constrain_idxs(-2, Some(3), 3), Some((1, 3)));
    assert_eq!(constrain_idxs(2, Some(1), 3), Some((2, 1)));
    assert_eq!(constrain_idxs(4, None, 3), None);
    assert_eq!(constrain_idxs(0, Some(4), 3), None);
    assert_eq!(constrain_idxs(-4, None, 3), None);
    assert_eq!(constrain_idxs(0, Some(-4), 3), None);
}

#[test]
fn slice_follows_signed_indices() {
    let stack = filled(&[10, 20, 30]);
    assert_eq!(stack.slice(0, None), Ok(&[10, 20, 30][..]));
    assert_eq!(stack.slice(-1, None), Ok(&[30][..]));
    assert_eq!(stack.slice(-2, None), Ok(&[20, 30][..]));
    assert_eq!(stack.slice(0, Some(1)), Ok(&[10][..]));
    assert_eq!(stack.slice(1, Some(-1)), Ok(&[20][..]));
    assert_eq!(stack.slice(3, None), Ok(&[][..]));
    assert_eq!(stack.slice(2, Some(1)), Ok(&[][..]));
    assert_eq!(stack.slice(1, Some(1)), Ok(&[][..]));
}

#[test]
fn slice_out_of_bound_is_an_error() {
    let stack = filled(&[10, 20, 30]);
    assert_eq!(stack.slice(4, None), Err(OutOfBound { start: 4, end: None, len: 3 }));
    assert_eq!(stack.slice(0, Some(4)), Err(OutOfBound { start: 0, end: Some(4), len: 3 }));
    assert_eq!(stack.slice(-4, Some(2)), Err(OutOfBound { start: -4, end: Some(2), len: 3 }));
    let empty: Stack<i32> = Stack::new();
    assert_eq!(empty.slice(0, None), Ok(&[][..]));
    assert_eq!(empty.slice(-1, None), Err(OutOfBound { start: -1, end: None, len: 0 }));
}

#[test]
fn restore_on_none_keeps_or_cuts() {
    let mut stack = filled(&[1]);
    let kept = restore_on_none(&mut stack, |stack| {
        stack.push(2);
        Some("kept")
    });
    assert_eq!(kept, Some("kept"));
    assert_eq!(stack.as_slice(), &[1, 2][..]);
    assert_eq!(stack.depth(), 0);
    let cut: Option<()> = restore_on_none(&mut stack, |stack| {
        stack.push(3);
        stack.push(4);
        None
    });
    assert_eq!(cut, None);
    assert_eq!(stack.as_slice(), &[1, 2][..]);
    assert_eq!(stack.depth(), 0);
}
