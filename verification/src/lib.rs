//! Verified building blocks of a small benchmarking utility: recursive,
//! memoized and iterative Fibonacci, recursive and iterative quicksort with
//! their shared Lomuto partition, a text codec for integer vectors, random
//! fixture generation, and the millisecond conversion used by the timing
//! harness.

pub mod codec;
pub mod fib;
pub mod fixtures;
pub mod sort;
pub mod timing;
