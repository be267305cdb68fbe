use timer::list::stack::Stack;

#[test]
fn stack_test() {
    let mut stack = Stack::new();
    stack.push(5);
    stack.push(4);
    stack.push(3);
    stack.push(2);

    assert_eq!(stack.pop(), Some(2));
    assert_eq!(stack.pop(), Some(3));
    assert_eq!(stack.pop(), Some(4));
    assert_eq!(stack.pop(), Some(5));
    assert_eq!(stack.pop(), None);
}

#[test]
fn pop_on_empty_stack_leaves_it_empty() {
    let mut stack = Stack::new();
    assert_eq!(stack.pop(), None);
    stack.push(-1);
    assert_eq!(stack.pop(), Some(-1));
    assert_eq!(stack.pop(), None);
}
