use lazylist::{Arena, List, RcList, RcListMethods, Source, Thunk, Unfold, VecSource};
use std::cell::Cell;
use std::rc::Rc;

fn collect<S: Source<u64>>(arena: &mut Arena<u64, S>, list: RcList, limit: usize) -> Vec<u64> {
    let mut out = Vec::new();
    let mut cursor = list;
    while out.len() < limit {
        match arena.next(&mut cursor) {
            Some(v) => out.push(*v),
            None => break,
        }
    }
    out
}

#[test]
fn vec_list_yields_its_elements_in_order_then_ends() {
    let mut arena = Arena::new();
    let list = arena.from_iter(VecSource::new(vec![3u64, 1, 4, 1, 5]));
    let mut cursor = list;
    assert_eq!(arena.next(&mut cursor), Some(&3));
    assert_eq!(arena.next(&mut cursor), Some(&1));
    assert_eq!(arena.next(&mut cursor), Some(&4));
    assert_eq!(arena.next(&mut cursor), Some(&1));
    assert_eq!(arena.next(&mut cursor), Some(&5));
    assert_eq!(arena.next(&mut cursor), None);
    assert_eq!(arena.next(&mut cursor), None);
    assert_eq!(collect(&mut arena, list, 100), vec![3, 1, 4, 1, 5]);
}

#[test]
fn a_new_iteration_starts_from_the_handle_again() {
    let mut arena = Arena::new();
    let list = arena.from_iter(VecSource::new(vec![1u64, 2, 3]));
    assert_eq!(collect(&mut arena, list, 2), vec![1, 2]);
    assert_eq!(collect(&mut arena, list, 10), vec![1, 2, 3]);
    assert_eq!(collect(&mut arena, list, 10), vec![1, 2, 3]);
}

#[test]
fn vec_list_has_the_length_of_the_vector() {
    let mut arena = Arena::new();
    let list = arena.from_iter(VecSource::new(vec![7u64; 6]));
    assert_eq!(list.len(&mut arena), 6);
    assert_eq!(list.len(&mut arena), 6);
}

#[test]
fn empty_vec_gives_the_empty_list() {
    let mut arena = Arena::new();
    let list = arena.from_iter(VecSource::new(Vec::<u64>::new()));
    assert!(!arena.is_forced(list));
    assert_eq!(list.pop(&mut arena), None);
    assert!(arena.is_forced(list));
    assert_eq!(list.len(&mut arena), 0);
}

#[test]
fn vec_source_gives_first_to_last() {
    let mut source = VecSource::new(vec!['a', 'b', 'c']);
    assert_eq!(source.next(), Some('a'));
    assert_eq!(source.next(), Some('b'));
    assert_eq!(source.next(), Some('c'));
    assert_eq!(source.next(), None);
    assert_eq!(source.next(), None);
}

#[test]
fn unfold_steps_from_its_seed_and_stays_ended() {
    let mut source = Unfold::new(1u32, |&n: &u32| if n <= 8 { Some((n, n * 2)) } else { None });
    assert_eq!(source.next(), Some(1));
    assert_eq!(source.next(), Some(2));
    assert_eq!(source.next(), Some(4));
    assert_eq!(source.next(), Some(8));
    assert_eq!(source.next(), None);
    assert_eq!(source.next(), None);
}

#[test]
fn first_ten_fibonacci_numbers() {
    let mut arena = Arena::new();
    let fibs = arena.from_iter(Unfold::new((0u64, 1u64), |&(a, b): &(u64, u64)| {
        Some((a, (b, a.wrapping_add(b))))
    }));
    assert_eq!(collect(&mut arena, fibs, 10), vec![0, 1, 1, 2, 3, 5, 8, 13, 21, 34]);
}

#[test]
fn taking_k_elements_runs_the_source_k_times() {
    let calls = Rc::new(Cell::new(0u32));
    let seen = calls.clone();
    let mut arena = Arena::new();
    let naturals = arena.from_iter(Unfold::new(0u64, move |&n: &u64| {
        seen.set(seen.get() + 1);
        Some((n, n + 1))
    }));
    assert_eq!(calls.get(), 0);
    assert!(!arena.is_forced(naturals));

    let mut cursor = naturals;
    for expected in 0..5u64 {
        assert_eq!(arena.next(&mut cursor), Some(&expected));
    }
    assert_eq!(calls.get(), 5);
    assert!(arena.is_forced(naturals));
    assert!(arena.contains(cursor));
    assert!(!arena.is_forced(cursor));
    assert!(!arena.contains(RcList { cell: cursor.cell + 1 }));
    assert!(!arena.is_forced(RcList { cell: cursor.cell + 1 }));

    assert_eq!(collect(&mut arena, naturals, 5), vec![0, 1, 2, 3, 4]);
    assert_eq!(calls.get(), 5);
    assert_eq!(collect(&mut arena, naturals, 7), vec![0, 1, 2, 3, 4, 5, 6]);
    assert_eq!(calls.get(), 7);
}

#[test]
fn forcing_again_gives_the_same_node_and_runs_nothing() {
    let calls = Rc::new(Cell::new(0u32));
    let seen = calls.clone();
    let mut arena = Arena::new();
    let list = arena.from_iter(Unfold::new(10u64, move |&n: &u64| {
        seen.set(seen.get() + 1);
        Some((n, n + 1))
    }));
    let shared = list;

    let first = arena.force(list).clone();
    for _ in 0..4 {
        let again = arena.force(list).clone();
        assert_eq!(again.head(), first.head());
        assert_eq!(again.tail(), first.tail());
        let through_copy = arena.force(shared).clone();
        assert_eq!(through_copy.head(), Some(&10));
        assert_eq!(through_copy.tail(), first.tail());
    }
    assert_eq!(calls.get(), 1);
}

#[test]
fn pop_forces_its_cell_once() {
    let calls = Rc::new(Cell::new(0u32));
    let seen = calls.clone();
    let mut arena = Arena::new();
    let list = arena.from_iter(Unfold::new(1u64, move |&n: &u64| {
        seen.set(seen.get() + 1);
        Some((n, n + 1))
    }));

    let popped = list.pop(&mut arena).map(|(v, t)| (*v, t));
    assert_eq!(calls.get(), 1);
    let head = arena.force(list).head().copied();
    let tail = arena.force(list).tail();
    assert_eq!(calls.get(), 1);
    assert_eq!(popped, head.zip(tail));
    assert_eq!(popped.map(|(v, _)| v), Some(1));
}

#[test]
fn len_forces_every_cell_and_the_end() {
    let calls = Rc::new(Cell::new(0u32));
    let seen = calls.clone();
    let mut arena = Arena::new();
    let list = arena.from_iter(Unfold::new(0u64, move |&n: &u64| {
        seen.set(seen.get() + 1);
        if n < 4 {
            Some((n, n + 1))
        } else {
            None
        }
    }));
    assert_eq!(list.len(&mut arena), 4);
    assert_eq!(calls.get(), 5);
    assert_eq!(list.len(&mut arena), 4);
    assert_eq!(calls.get(), 5);

    let mut cursor = list;
    for _ in 0..4 {
        assert!(arena.is_forced(cursor));
        cursor = arena.force(cursor).tail().unwrap();
    }
    assert!(arena.is_forced(cursor));
    assert!(matches!(arena.force(cursor), List::Nil));
}

#[test]
fn pushing_onto_a_lazy_list_forces_nothing() {
    let calls = Rc::new(Cell::new(0u32));
    let seen = calls.clone();
    let mut arena = Arena::new();
    let lazy = arena.from_iter(Unfold::new(2u64, move |&n: &u64| {
        seen.set(seen.get() + 1);
        if n < 4 {
            Some((n, n + 1))
        } else {
            None
        }
    }));
    let left = lazy.push(&mut arena, 1);
    let right = lazy.push(&mut arena, 100);
    assert_eq!(calls.get(), 0);
    assert!(!arena.is_forced(lazy));
    assert_eq!(arena.force(left).tail(), Some(lazy));
    assert_eq!(arena.force(right).tail(), Some(lazy));
    assert_eq!(calls.get(), 0);

    assert_eq!(collect(&mut arena, left, 10), vec![1, 2, 3]);
    assert_eq!(calls.get(), 3);
    assert_eq!(collect(&mut arena, right, 10), vec![100, 2, 3]);
    assert_eq!(calls.get(), 3);
    assert_eq!(collect(&mut arena, lazy, 10), vec![2, 3]);
}

#[test]
fn thunk_runs_its_source_once() {
    let mut thunk: Thunk<u64, VecSource<u64>> = Thunk::Unevaluated(VecSource::new(vec![8, 9]));
    assert!(!thunk.is_evaluated());
    assert!(thunk.value().is_none());
    let rest = RcList { cell: 5 };
    let mut left = thunk.force(rest).expect("the source goes on");
    assert!(thunk.is_evaluated());
    assert_eq!(thunk.value().unwrap().head(), Some(&8));
    assert_eq!(thunk.value().unwrap().tail(), Some(rest));
    assert_eq!(left.next(), Some(9));

    assert!(thunk.force(RcList { cell: 77 }).is_none());
    assert_eq!(thunk.value().unwrap().head(), Some(&8));
    assert_eq!(thunk.value().unwrap().tail(), Some(rest));
}

#[test]
fn thunk_of_an_ended_source_becomes_the_empty_node() {
    let mut thunk: Thunk<u64, VecSource<u64>> = Thunk::Unevaluated(VecSource::new(vec![]));
    assert!(thunk.force(RcList { cell: 1 }).is_none());
    assert!(thunk.is_evaluated());
    assert!(matches!(thunk.value(), Some(List::Nil)));
}
