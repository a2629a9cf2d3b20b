use lazylist::{Arena, List, RcList, RcListMethods, VecSource};

fn plain() -> Arena<u32, VecSource<u32>> {
    Arena::new()
}

#[test]
fn new_list_has_no_head_tail_or_pop() {
    let mut arena = plain();
    let empty = List::new(&mut arena);
    assert!(arena.contains(empty));
    assert_eq!(arena.force(empty).head(), None);
    assert_eq!(arena.force(empty).tail(), None);
    assert_eq!(empty.pop(&mut arena), None);
    assert!(matches!(arena.force(empty), List::Nil));
}

#[test]
fn new_list_has_length_zero() {
    let mut arena = plain();
    let empty = List::new(&mut arena);
    assert_eq!(empty.len(&mut arena), 0);
}

#[test]
fn singleton_has_its_element_and_an_empty_tail() {
    let mut arena = plain();
    let one = List::singleton(&mut arena, 42);
    assert_eq!(arena.force(one).head(), Some(&42));
    let tail = arena.force(one).tail().unwrap();
    assert!(matches!(arena.force(tail), List::Nil));
    assert_eq!(arena.force(tail).head(), None);
    assert_eq!(one.len(&mut arena), 1);
}

#[test]
fn singleton_is_push_onto_new() {
    let mut arena = plain();
    let one = List::singleton(&mut arena, 5);
    let empty = List::new(&mut arena);
    let other = empty.push(&mut arena, 5);
    let head_of_one = arena.force(one).head().copied();
    let head_of_other = arena.force(other).head().copied();
    assert_eq!(head_of_one, Some(5));
    assert_eq!(head_of_one, head_of_other);
    assert_eq!(one.len(&mut arena), other.len(&mut arena));
}

#[test]
fn push_puts_the_value_in_front_of_the_same_cell() {
    let mut arena = plain();
    let base = List::singleton(&mut arena, 1);
    let list = base.push(&mut arena, 2);
    assert_eq!(arena.force(list).head(), Some(&2));
    assert_eq!(arena.force(list).tail(), Some(base));
    assert_ne!(list, base);
    assert_eq!(list.len(&mut arena), 2);
    assert_eq!(base.len(&mut arena), 1);
}

#[test]
fn pop_pairs_head_with_tail() {
    let mut arena = plain();
    let base = List::singleton(&mut arena, 1);
    let list = base.push(&mut arena, 2);
    let head = arena.force(list).head().copied();
    let tail = arena.force(list).tail();
    let popped = list.pop(&mut arena).map(|(v, t)| (*v, t));
    assert_eq!(popped, Some((2, base)));
    assert_eq!(popped, head.zip(tail));
}

#[test]
fn two_pushes_share_their_base() {
    let mut arena = plain();
    let empty = List::new(&mut arena);
    let base = empty.push(&mut arena, 1).push(&mut arena, 2);
    let left = base.push(&mut arena, 10);
    let right = base.push(&mut arena, 20);
    assert_ne!(left, right);
    assert_eq!(arena.force(left).tail(), Some(base));
    assert_eq!(arena.force(right).tail(), Some(base));
    assert_eq!(arena.force(left).head(), Some(&10));
    assert_eq!(arena.force(right).head(), Some(&20));
    assert_eq!(arena.force(base).head(), Some(&2));
    assert_eq!(base.len(&mut arena), 2);
    assert_eq!(left.len(&mut arena), 3);
    assert_eq!(right.len(&mut arena), 3);
}

#[test]
fn handles_are_numbered_in_the_order_of_their_making() {
    let mut arena = plain();
    let a = List::new(&mut arena);
    let b = a.push(&mut arena, 1);
    let c = List::singleton(&mut arena, 7);
    assert_eq!(a, RcList { cell: 0 });
    assert_eq!(b, RcList { cell: 1 });
    assert_eq!(c, RcList { cell: 3 });
    assert!(arena.contains(RcList { cell: 3 }));
    assert!(!arena.contains(RcList { cell: 4 }));
}

#[test]
fn a_handle_of_no_cell_is_not_in_the_arena() {
    let arena = plain();
    assert!(!arena.contains(RcList { cell: 0 }));
}

#[test]
fn node_accessors_work_on_plain_nodes() {
    let tail = RcList { cell: 3 };
    let node = List::Cons(9u8, tail);
    assert_eq!(node.head(), Some(&9));
    assert_eq!(node.tail(), Some(tail));
    let end: List<u8> = List::Nil;
    assert_eq!(end.head(), None);
    assert_eq!(end.tail(), None);
}

#[test]
fn cloned_node_keeps_element_and_tail() {
    let node = List::Cons(String::from("a"), RcList { cell: 1 });
    let copy = node.clone();
    assert_eq!(copy.head(), Some(&String::from("a")));
    assert_eq!(copy.tail(), Some(RcList { cell: 1 }));
}
