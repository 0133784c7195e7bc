//! Fibonacci in three styles: plain recursion, recursion with a memoization
//! buffer, and iteration. All three agree with the mathematical recurrence
//! `spec_fibo`, reduced modulo 2^64 because the executable results are 64-bit
//! and overflow wraps.
//!
//! The recurrence deliberately treats the indices 0, 1 and 2 uniformly as a
//! base case returning 1; callers depend on this convention and it is kept
//! as the reference behaviour.

use vstd::prelude::*;

verus! {

use vstd::arithmetic::div_mod::lemma_add_mod_noop;
use vstd::arithmetic::div_mod::lemma_small_mod;

/// The mathematical Fibonacci recurrence with the base case
/// `spec_fibo(0) == spec_fibo(1) == spec_fibo(2) == 1`.
pub open spec fn spec_fibo(n: nat) -> nat
    decreases n,
{
    if n <= 2 {
        1
    } else {
        spec_fibo((n - 1) as nat) + spec_fibo((n - 2) as nat)
    }
}

/// What a 64-bit computation of the recurrence yields: the true value
/// reduced modulo 2^64 (overflow wraps silently).
pub open spec fn fibo_mod(n: nat) -> nat {
    spec_fibo(n) % 0x1_0000_0000_0000_0000
}

/// 64-bit addition that wraps on overflow, with its exact contract.
fn wrapping_add_u64(a: u64, b: u64) -> (r: u64)
    ensures
        r as int == (a as int + b as int) % 0x1_0000_0000_0000_0000,
{
    let wide: u128 = a as u128 + b as u128;
    (wide % 0x1_0000_0000_0000_0000u128) as u64
}

/// The wrapped recurrence step: adding two consecutive wrapped values,
/// wrapping again, gives the next wrapped value.
proof fn lemma_fibo_mod_step(n: nat)
    requires
        n >= 3,
    ensures
        (fibo_mod((n - 2) as nat) + fibo_mod((n - 1) as nat)) % 0x1_0000_0000_0000_0000
            == fibo_mod(n),
{
    lemma_add_mod_noop(
        spec_fibo((n - 2) as nat) as int,
        spec_fibo((n - 1) as nat) as int,
        0x1_0000_0000_0000_0000,
    );
}

/// Plain recursive Fibonacci. Exponential time; no sharing of subresults.
pub fn fibo_rec(n: u64) -> (r: u64)
    ensures
        r == fibo_mod(n as nat),
    decreases n,
{
    if n <= 2 {
        proof {
            lemma_small_mod(1, 0x1_0000_0000_0000_0000);
        }
        return 1;
    }

    let a = fibo_rec(n - 1);
    let b = fibo_rec(n - 2);
    let r = wrapping_add_u64(b, a);
    proof {
        lemma_fibo_mod_step(n as nat);
    }
    r
}

/// A memoization buffer is valid when every non-zero entry holds the wrapped
/// Fibonacci value of its index. Zero is the sentinel for "not yet computed"
/// (Fibonacci values in the safe range are positive, so zero is unambiguous
/// there; a wrapped value of zero merely forces a recomputation).
pub open spec fn memo_valid(memo: Seq<u64>) -> bool {
    forall|i: int|
        0 <= i < memo.len() ==> #[trigger] memo[i] == 0 || memo[i] == fibo_mod(i as nat)
}

/// Memoized Fibonacci: allocates a fresh zeroed buffer of size `n + 1` and
/// delegates to the recursive routine that fills it.
pub fn fibo_rec_memoized(n: usize) -> (r: u64)
    requires
        n < usize::MAX,
    ensures
        r == fibo_mod(n as nat),
{
    let mut memo: Vec<u64> = Vec::new();
    let mut i: usize = 0;
    while i < n + 1
        invariant
            n < usize::MAX,
            i <= n + 1,
            memo@.len() == i,
            forall|j: int| 0 <= j < i ==> #[trigger] memo@[j] == 0,
        decreases n + 1 - i,
    {
        memo.push(0);
        i = i + 1;
    }
    real_fibo_rec_memoized(n, &mut memo)
}

/// The recursive core of memoized Fibonacci. The buffer is threaded by
/// exclusive mutable reference, so values written at any depth are visible
/// to sibling calls higher in the stack.
pub fn real_fibo_rec_memoized(n: usize, memo: &mut Vec<u64>) -> (r: u64)
    requires
        n < old(memo)@.len(),
        memo_valid(old(memo)@),
    ensures
        r == fibo_mod(n as nat),
        final(memo)@.len() == old(memo)@.len(),
        memo_valid(final(memo)@),
    decreases n,
{
    if n <= 2 {
        proof {
            lemma_small_mod(1, 0x1_0000_0000_0000_0000);
        }
        return 1;
    }

    let cached = memo[n];
    if cached != 0 {
        return cached;
    }

    let a = real_fibo_rec_memoized(n - 1, memo);
    let b = real_fibo_rec_memoized(n - 2, memo);
    let r = wrapping_add_u64(a, b);
    proof {
        lemma_fibo_mod_step(n as nat);
    }
    memo.set(n, r);
    memo[n]
}

/// Iterative Fibonacci: two running values walk the recurrence from the base
/// case up to `n`. Linear time, constant space.
pub fn fibo_iter(n: u64) -> (r: u64)
    ensures
        r == fibo_mod(n as nat),
{
    let a: u64 = 1;
    let b: u64 = 1;
    proof {
        lemma_small_mod(1, 0x1_0000_0000_0000_0000);
    }
    if n <= 2 {
        return b;
    }

    let mut prev: u64 = a;
    let mut cur: u64 = b;
    let mut k: u64 = 2;
    while k < n
        invariant
            2 <= k <= n,
            prev == fibo_mod((k - 1) as nat),
            cur == fibo_mod(k as nat),
        decreases n - k,
    {
        let next = wrapping_add_u64(prev, cur);
        proof {
            lemma_fibo_mod_step((k + 1) as nat);
        }
        prev = cur;
        cur = next;
        k = k + 1;
    }
    cur
}

/// Fibonacci grows monotonically with the index.
proof fn lemma_fibo_monotone(i: nat, j: nat)
    requires
        i <= j,
    ensures
        spec_fibo(i) <= spec_fibo(j),
    decreases j,
{
    if i < j && j > 2 {
        lemma_fibo_monotone(i, (j - 1) as nat);
        assert(spec_fibo(j) == spec_fibo((j - 1) as nat) + spec_fibo((j - 2) as nat));
    }
}

/// The value of the recurrence at the last index whose result still fits in
/// 64 bits, pinned by walking the recurrence step by step.
proof fn lemma_fibo_93()
    ensures
        spec_fibo(93) == 12200160415121876738,
{
    assert(spec_fibo(93) == 12200160415121876738) by {
        assert(spec_fibo(0) == 1);
        assert(spec_fibo(1) == 1);
        assert(spec_fibo(2) == 1);
        assert(spec_fibo(3) == 2);
        assert(spec_fibo(4) == 3);
        assert(spec_fibo(5) == 5);
        assert(spec_fibo(6) == 8);
        assert(spec_fibo(7) == 13);
        assert(spec_fibo(8) == 21);
        assert(spec_fibo(9) == 34);
        assert(spec_fibo(10) == 55);
        assert(spec_fibo(11) == 89);
        assert(spec_fibo(12) == 144);
        assert(spec_fibo(13) == 233);
        assert(spec_fibo(14) == 377);
        assert(spec_fibo(15) == 610);
        assert(spec_fibo(16) == 987);
        assert(spec_fibo(17) == 1597);
        assert(spec_fibo(18) == 2584);
        assert(spec_fibo(19) == 4181);
        assert(spec_fibo(20) == 6765);
        assert(spec_fibo(21) == 10946);
        assert(spec_fibo(22) == 17711);
        assert(spec_fibo(23) == 28657);
        assert(spec_fibo(24) == 46368);
        assert(spec_fibo(25) == 75025);
        assert(spec_fibo(26) == 121393);
        assert(spec_fibo(27) == 196418);
        assert(spec_fibo(28) == 317811);
        assert(spec_fibo(29) == 514229);
        assert(spec_fibo(30) == 832040);
        assert(spec_fibo(31) == 1346269);
        assert(spec_fibo(32) == 2178309);
        assert(spec_fibo(33) == 3524578);
        assert(spec_fibo(34) == 5702887);
        assert(spec_fibo(35) == 9227465);
        assert(spec_fibo(36) == 14930352);
        assert(spec_fibo(37) == 24157817);
        assert(spec_fibo(38) == 39088169);
        assert(spec_fibo(39) == 63245986);
        assert(spec_fibo(40) == 102334155);
        assert(spec_fibo(41) == 165580141);
        assert(spec_fibo(42) == 267914296);
        assert(spec_fibo(43) == 433494437);
        assert(spec_fibo(44) == 701408733);
        assert(spec_fibo(45) == 1134903170);
        assert(spec_fibo(46) == 1836311903);
        assert(spec_fibo(47) == 2971215073);
        assert(spec_fibo(48) == 4807526976);
        assert(spec_fibo(49) == 7778742049);
        assert(spec_fibo(50) == 12586269025);
        assert(spec_fibo(51) == 20365011074);
        assert(spec_fibo(52) == 32951280099);
        assert(spec_fibo(53) == 53316291173);
        assert(spec_fibo(54) == 86267571272);
        assert(spec_fibo(55) == 139583862445);
        assert(spec_fibo(56) == 225851433717);
        assert(spec_fibo(57) == 365435296162);
        assert(spec_fibo(58) == 591286729879);
        assert(spec_fibo(59) == 956722026041);
        assert(spec_fibo(60) == 1548008755920);
        assert(spec_fibo(61) == 2504730781961);
        assert(spec_fibo(62) == 4052739537881);
        assert(spec_fibo(63) == 6557470319842);
        assert(spec_fibo(64) == 10610209857723);
        assert(spec_fibo(65) == 17167680177565);
        assert(spec_fibo(66) == 27777890035288);
        assert(spec_fibo(67) == 44945570212853);
        assert(spec_fibo(68) == 72723460248141);
        assert(spec_fibo(69) == 117669030460994);
        assert(spec_fibo(70) == 190392490709135);
        assert(spec_fibo(71) == 308061521170129);
        assert(spec_fibo(72) == 498454011879264);
        assert(spec_fibo(73) == 806515533049393);
        assert(spec_fibo(74) == 1304969544928657);
        assert(spec_fibo(75) == 2111485077978050);
        assert(spec_fibo(76) == 3416454622906707);
        assert(spec_fibo(77) == 5527939700884757);
        assert(spec_fibo(78) == 8944394323791464);
        assert(spec_fibo(79) == 14472334024676221);
        assert(spec_fibo(80) == 23416728348467685);
        assert(spec_fibo(81) == 37889062373143906);
        assert(spec_fibo(82) == 61305790721611591);
        assert(spec_fibo(83) == 99194853094755497);
        assert(spec_fibo(84) == 160500643816367088);
        assert(spec_fibo(85) == 259695496911122585);
        assert(spec_fibo(86) == 420196140727489673);
        assert(spec_fibo(87) == 679891637638612258);
        assert(spec_fibo(88) == 1100087778366101931);
        assert(spec_fibo(89) == 1779979416004714189);
        assert(spec_fibo(90) == 2880067194370816120);
        assert(spec_fibo(91) == 4660046610375530309);
        assert(spec_fibo(92) == 7540113804746346429);
        assert(spec_fibo(93) == 12200160415121876738);
    }
}

/// For every index up to 93 the true Fibonacci value fits in 64 bits, so the
/// executable functions return it exactly: on that range the recursive, the
/// memoized and the iterative variant all equal the unreduced recurrence.
pub proof fn lemma_fibo_exact_up_to_93(n: nat)
    requires
        n <= 93,
    ensures
        spec_fibo(n) <= u64::MAX,
        fibo_mod(n) == spec_fibo(n),
{
    lemma_fibo_monotone(n, 93);
    lemma_fibo_93();
    lemma_small_mod(spec_fibo(n), 0x1_0000_0000_0000_0000);
}

} // verus!
