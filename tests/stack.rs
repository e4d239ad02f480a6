use containers::stack::{Stack, StackError, STACK_CAPACITY};

#[test]
fn test_push_is_ok() {
    let mut stack = Stack::new();
    let r = stack.push(1);
    assert_eq!(r.is_ok(), true);
}

#[test]
fn test_pop_is_ok() {
    let mut stack = Stack::new();
    let r = stack.push(1);
    assert_eq!(r.is_ok(), true);
    let r = stack.pop();
    let v = r.expect("pop error");
    assert_eq!(v, 1);
}

#[test]
fn test_peek_is_ok() {
    let mut stack = Stack::new();
    stack.push(1).unwrap();
    stack.push(2).unwrap();
    let r = stack.peek();
    assert_eq!(r.expect("peek error"), &2);
}

#[test]
fn test_peek_on_empty_stack_is_none() {
    let stack: Stack<i32> = Stack::new();
    assert_eq!(stack.peek(), None);
}

#[test]
fn test_pop_empty_stack_results_underflow() {
    let mut stack: Stack<i32> = Stack::new();
    let r = stack.pop();
    assert_eq!(r.expect_err("expecting underflow"), StackError::Underflow);
}

#[test]
fn test_push_over_size_results_in_overflow() {
    let mut stack: Stack<i32> = Stack::new();
    for i in 0..=2048 {
        let r = stack.push(i);
        if i >= 2047 {
            if let Err(v) = r {
                assert_eq!(v.0, Some(i));
                assert_eq!(v.1, StackError::Overflow);
            } else {
                assert!(false, "expecting error");
            }
        } else {
            if let Ok(_) = r {
                assert!(true, "all ok");
            } else {
                assert!(false, "received unexpected error");
            }
        }
    }
}

#[test]
fn stack_pops_in_reverse_push_order() {
    let mut stack = Stack::new();
    for i in 0..100 {
        assert!(stack.push(i).is_ok());
    }
    for i in (0..100).rev() {
        assert_eq!(stack.pop(), Ok(i));
    }
    assert_eq!(stack.pop(), Err(StackError::Underflow));
}

#[test]
fn stack_peek_repeated_does_not_change_state() {
    let mut stack = Stack::new();
    stack.push(3).unwrap();
    stack.push(4).unwrap();
    for _ in 0..5 {
        assert_eq!(stack.peek(), Some(&4));
    }
    assert_eq!(stack.pop(), Ok(4));
    assert_eq!(stack.peek(), Some(&3));
    assert_eq!(stack.pop(), Ok(3));
    assert_eq!(stack.peek(), None);
}

#[test]
fn stack_overflow_hands_back_element_and_keeps_contents() {
    let mut stack = Stack::new();
    for i in 0..(STACK_CAPACITY - 1) {
        assert!(stack.push(i).is_ok());
    }
    assert_eq!(
        stack.push(9999),
        Err((Some(9999), StackError::Overflow))
    );
    assert_eq!(stack.peek(), Some(&(STACK_CAPACITY - 2)));
    assert_eq!(stack.pop(), Ok(STACK_CAPACITY - 2));
    assert!(stack.push(5).is_ok());
    assert_eq!(stack.pop(), Ok(5));
}
