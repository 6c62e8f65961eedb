use lambda_lang::eval::stack::Stack;
use lambda_lang::eval::value::Value;

#[test]
fn test_stack1() {
    let mut stack = Stack::with_capacity(1024);
    stack.push(&Value::U64(999));
    assert_eq!(stack.index(0), &Value::U64(999));
    stack.push(&Value::U64(10));
    assert_eq!(stack.index(0), &Value::U64(10));
    assert_eq!(stack.index(1), &Value::U64(999));
    stack.push(&Value::U64(42));
    assert_eq!(stack.index(0), &Value::U64(42));
    assert_eq!(stack.index(1), &Value::U64(10));
    assert_eq!(stack.index(2), &Value::U64(999));
}

#[test]
fn stack_pops_in_reverse_order() {
    let mut stack = Stack::with_capacity(64);
    assert_eq!(stack.max_size(), 64 / std::mem::size_of::<&Value>());
    assert_eq!(stack.size(), 0);
    stack.push(&Value::U64(1));
    stack.push(&Value::U64(2));
    stack.push(&Value::U64(3));
    assert_eq!(stack.size(), 3);
    assert_eq!(stack.peek(), &Value::U64(3));
    assert_eq!(stack.pop(), &Value::U64(3));
    assert_eq!(stack.peek(), &Value::U64(2));
    assert_eq!(stack.pop(), &Value::U64(2));
    assert_eq!(stack.size(), 1);
    stack.push(&Value::U64(4));
    assert_eq!(stack.pop(), &Value::U64(4));
    assert_eq!(stack.pop(), &Value::U64(1));
    assert_eq!(stack.size(), 0);
}

#[test]
fn stack_iterates_both_ways() {
    let mut stack = Stack::with_capacity(64);
    stack.push(&Value::U64(1));
    stack.push(&Value::U64(2));
    stack.push(&Value::U64(3));

    let mut from_top = stack.iter_from_top();
    assert_eq!(from_top.next(), Some(&Value::U64(3)));
    assert_eq!(from_top.next(), Some(&Value::U64(2)));
    assert_eq!(from_top.next(), Some(&Value::U64(1)));
    assert_eq!(from_top.next(), None);
    assert_eq!(from_top.next(), None);

    let mut from_bottom = stack.iter_from_bottom();
    assert_eq!(from_bottom.next(), Some(&Value::U64(1)));
    assert_eq!(from_bottom.next(), Some(&Value::U64(2)));
    assert_eq!(from_bottom.next(), Some(&Value::U64(3)));
    assert_eq!(from_bottom.next(), None);

    // The iterators hold their own copy of the references.
    stack.pop();
    let mut again = stack.iter_from_top();
    assert_eq!(again.next(), Some(&Value::U64(2)));
}
