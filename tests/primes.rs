use space_inspector::primes::primes;

#[test]
fn primes_works() {
    let (pc, max) = primes(1024);
    assert_eq!(pc, 172);
    assert_eq!(max, 1021);
}

#[test]
fn primes_below_small_limits() {
    assert_eq!(primes(0), (0, 0));
    assert_eq!(primes(2), (0, 0));
    assert_eq!(primes(3), (1, 2));
    assert_eq!(primes(10), (4, 7));
    assert_eq!(primes(11), (4, 7));
    assert_eq!(primes(12), (5, 11));
    assert_eq!(primes(26), (9, 23));
}
