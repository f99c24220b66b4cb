use raytracer::static_stack::StaticStack;

#[test]
fn new_stack_is_empty() {
    let s: StaticStack<u32, 4> = StaticStack::new();
    assert!(s.is_empty());
    assert_eq!(s.len(), 0);
}

#[test]
fn new_with_default_holds_one_item() {
    let mut s: StaticStack<u32, 4> = StaticStack::new_with_default(7);
    assert!(!s.is_empty());
    assert_eq!(s.len(), 1);
    assert_eq!(s.pop(), 7);
    assert!(s.is_empty());
}

#[test]
fn pop_returns_items_last_in_first_out() {
    let mut s: StaticStack<(usize, i32), 3> = StaticStack::new();
    s.push((1, 10));
    s.push((2, 20));
    s.push((3, 30));
    assert_eq!(s.len(), 3);
    assert_eq!(s.pop(), (3, 30));
    assert_eq!(s.pop(), (2, 20));
    s.push((4, 40));
    assert_eq!(s.pop(), (4, 40));
    assert_eq!(s.pop(), (1, 10));
    assert!(s.is_empty());
}

#[test]
fn stack_fills_to_capacity() {
    let mut s: StaticStack<u8, 100> = StaticStack::new();
    for i in 0..100u8 {
        s.push(i);
    }
    assert_eq!(s.len(), 100);
    for i in (0..100u8).rev() {
        assert_eq!(s.pop(), i);
    }
    assert!(s.is_empty());
}
