use algobench::fib::fibo_iter;
use algobench::fib::fibo_rec;
use algobench::fib::fibo_rec_memoized;

#[test]
fn fibo_base_cases() {
    assert_eq!(fibo_rec(0), 1);
    assert_eq!(fibo_rec(1), 1);
    assert_eq!(fibo_rec(2), 1);
    assert_eq!(fibo_iter(0), 1);
    assert_eq!(fibo_iter(1), 1);
    assert_eq!(fibo_iter(2), 1);
    assert_eq!(fibo_rec_memoized(0), 1);
    assert_eq!(fibo_rec_memoized(1), 1);
    assert_eq!(fibo_rec_memoized(2), 1);
}

#[test]
fn fibo_known_values() {
    assert_eq!(fibo_rec(10), 55);
    assert_eq!(fibo_rec(20), 6765);
    assert_eq!(fibo_iter(10), 55);
    assert_eq!(fibo_iter(20), 6765);
    assert_eq!(fibo_rec_memoized(10), 55);
    assert_eq!(fibo_rec_memoized(20), 6765);
}

#[test]
fn fibo_equivalence_small_range() {
    // The plain recursion is exponential, so it is only sampled on small
    // indices; the other two cover the whole 64-bit-safe range below.
    for n in 0..=30u64 {
        let r = fibo_rec(n);
        assert_eq!(r, fibo_iter(n));
        assert_eq!(r, fibo_rec_memoized(n as usize));
    }
}

#[test]
fn fibo_equivalence_full_safe_range() {
    for n in 0..=93u64 {
        assert_eq!(fibo_iter(n), fibo_rec_memoized(n as usize));
    }
}

#[test]
fn fibo_largest_safe_index() {
    assert_eq!(fibo_iter(93), 12200160415121876738);
    assert_eq!(fibo_rec_memoized(93), 12200160415121876738);
}

#[test]
fn fibo_memoized_fifty() {
    assert_eq!(fibo_rec_memoized(50), 12586269025);
    assert_eq!(fibo_iter(50), 12586269025);
}
