use sudoku::stack::Stack;

#[test]
fn test_push_pop() {
    let mut stack = Stack::new();
    stack.push(1);
    stack.push(2);
    stack.push(3);
    stack.push(1);
    stack.push(2);
    stack.push(3);
    assert_eq!(stack.pop(), Some(3));
    assert_eq!(stack.pop(), Some(2));
    assert_eq!(stack.pop(), Some(1));
    assert_eq!(stack.pop(), None);
}

#[test]
fn test_insert_into() {
    let mut stack1 = Stack::new();
    stack1.push(1);
    stack1.push(2);
    stack1.push(3);

    let mut stack2 = Stack::new();
    stack2.push(1);
    stack2.push(2);
    stack2.push(3);

    stack1.insert_into(&mut stack2);
    assert_eq!(stack1.pop(), None);
    assert_eq!(stack2.pop(), Some(3));
    assert_eq!(stack2.pop(), Some(2));
    assert_eq!(stack2.pop(), Some(1));
    assert_eq!(stack2.pop(), None);
}

#[test]
fn test_repeated_push_pops_once() {
    let mut stack = Stack::new();
    for _ in 0..5 {
        stack.push(7);
    }
    assert_eq!(stack.pop(), Some(7));
    assert_eq!(stack.pop(), None);
}

#[test]
fn test_repush_wins_over_older_entries() {
    let mut stack = Stack::new();
    stack.push(1);
    stack.push(2);
    stack.push(1);
    assert_eq!(stack.pop(), Some(1));
    assert_eq!(stack.pop(), Some(2));
    assert_eq!(stack.pop(), None);
}

#[test]
fn test_pop_then_push_is_live_again() {
    let mut stack = Stack::new();
    stack.push(4);
    assert_eq!(stack.pop(), Some(4));
    stack.push(4);
    assert_eq!(stack.pop(), Some(4));
    assert_eq!(stack.pop(), None);
}

#[test]
fn test_insert_into_deduplicates() {
    let mut src = Stack::new();
    src.push(1);
    src.push(2);

    let mut dest = Stack::new();
    dest.push(2);
    dest.push(3);

    src.insert_into(&mut dest);
    // 1 then 2 are replayed onto [2, 3]; the replayed 2 supersedes the old 2.
    assert_eq!(dest.pop(), Some(2));
    assert_eq!(dest.pop(), Some(1));
    assert_eq!(dest.pop(), Some(3));
    assert_eq!(dest.pop(), None);
}
