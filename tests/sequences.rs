use space_inspector::sequences::{factorial, fib};

#[test]
fn it_calculates_sequence() {
    assert!(fib(5) == "0 1 1 2 3");
    assert!(fib(10) == "0 1 1 2 3 5 8 13 21 34");
    assert!(fib(0) == "");
}

#[test]
fn fib_small_counts() {
    assert_eq!(fib(1), "0");
    assert_eq!(fib(2), "0 1");
    assert_eq!(fib(3), "0 1 1");
}

#[test]
fn fib_largest_input() {
    let s = fib(47);
    assert!(s.ends_with(" 1836311903"));
    assert_eq!(s.split(' ').count(), 47);
}

#[test]
fn draws_star_lines() {
    assert_eq!(space_inspector::sequences::line(0), "");
    assert_eq!(space_inspector::sequences::line(3), "***");
}

#[test]
fn computes_factorials() {
    assert_eq!(factorial(0), 1);
    assert_eq!(factorial(1), 1);
    assert_eq!(factorial(5), 120);
    assert_eq!(factorial(12), 479001600);
}
