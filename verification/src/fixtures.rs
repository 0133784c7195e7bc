//! Benchmark fixtures: random input vectors of bounded values, and the
//! geometric progression of sizes the fixture generator walks.

use vstd::prelude::*;
use rand::Rng;

verus! {

/// Relies on rand's `Rng::gen_range` over the half-open range `a..b`: the
/// sample lies in that range. It panics on an empty range, which the
/// precondition excludes; nothing more is promised of a random draw.
#[verifier::external_body]
fn pick(a: i32, b: i32) -> (r: i32)
    requires
        a < b,
    ensures
        a <= r < b,
{
    rand::thread_rng().gen_range(a..b)
}

/// Generates a vector of `len` values drawn from the inclusive range
/// `[-99, 99]`.
pub fn get_rand_vector(len: usize) -> (v: Vec<i32>)
    ensures
        v@.len() == len,
        forall|i: int| 0 <= i < len ==> -99 <= #[trigger] v@[i] <= 99,
{
    let mut v: Vec<i32> = Vec::with_capacity(len);
    let mut i: usize = 0;
    while i < len
        invariant
            i <= len,
            v@.len() == i,
            forall|k: int| 0 <= k < i ==> -99 <= #[trigger] v@[k] <= 99,
        decreases len - i,
    {
        v.push(pick(-99, 100));
        i = i + 1;
    }
    v
}

/// Ten to the `k`.
pub open spec fn pow10(k: nat) -> int
    decreases k,
{
    if k == 0 {
        1
    } else {
        10 * pow10((k - 1) as nat)
    }
}

/// The sizes the fixture generator produces files for: `start`, then ten
/// times the previous size at each step, as long as the size does not
/// exceed `end`.
#[verifier::loop_isolation(false)]
pub fn fixture_sizes(start: i32, end: i32) -> (r: Vec<i32>)
    requires
        1 <= start,
        end <= 214748364,
    ensures
        forall|i: int| 0 <= i < r@.len() ==> #[trigger] r@[i] == start * pow10(i as nat),
        forall|i: int| 0 <= i < r@.len() ==> #[trigger] r@[i] <= end,
        r@.len() == 0 <==> start > end,
        r@.len() > 0 ==> start * pow10(r@.len() as nat) > end,
{
    let mut r: Vec<i32> = Vec::new();
    let mut n: i32 = start;
    while n <= end
        invariant
            1 <= n,
            n as int == start * pow10(r@.len() as nat),
            forall|i: int| 0 <= i < r@.len() ==> #[trigger] r@[i] == start * pow10(i as nat),
            forall|i: int| 0 <= i < r@.len() ==> #[trigger] r@[i] <= end,
            r@.len() > 0 ==> n > 0 && r@[r@.len() - 1] <= end,
            r@.len() == 0 ==> n == start,
        decreases (if end + 1 - n >= 0 { end + 1 - n } else { 0 }),
    {
        r.push(n);
        proof {
            let k = (r@.len() - 1) as nat;
            assert(pow10(k + 1) == 10 * pow10(k));
            assert(10 * (start * pow10(k)) == start * (10 * pow10(k))) by (nonlinear_arith);
        }
        n = n * 10;
    }
    proof {
        if r@.len() > 0 {
            assert(r@[0] == start * pow10(0));
            assert(pow10(0) == 1);
            assert(r@[0] <= end);
        }
    }
    r
}

} // verus!
