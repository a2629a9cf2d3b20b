use lazylist::{Arena, RcList, Unfold};

fn fib(n: u64) -> u64 {
    let mut n0: u64 = 0;
    let mut n1: u64 = 1;

    for _ in 0..n {
        let sum = n0.wrapping_add(n1);
        n0 = n1;
        n1 = sum;
    }

    n0
}

#[test]
fn test_fib() {
    let mut arena = Arena::new();
    let fibs: RcList = arena.from_iter(Unfold::new((0u64, 1u64), |&(n0, n1): &(u64, u64)| {
        Some((n0, (n1, n0.wrapping_add(n1))))
    }));

    let mut cursor = fibs;
    for i in 0..100 {
        let x = *arena.next(&mut cursor).unwrap();
        assert_eq!(x, fib(i as u64))
    }
}
