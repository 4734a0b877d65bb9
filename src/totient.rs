use vstd::prelude::*;
use vstd::arithmetic::div_mod::*;

verus! {

/// `p` is a prime number: at least 2, with no divisor strictly between 1 and `p`.
pub open spec fn is_prime(p: nat) -> bool {
    p >= 2 && forall|d: nat| 2 <= d < p ==> #[trigger] (p % d) != 0
}

/// Euler's product `n * prod (1 - 1/q)` taken over the primes `q < k` that
/// divide `n`, one factor at a time in increasing order of `q`.
pub open spec fn phi_below(n: nat, k: nat) -> nat
    decreases k,
{
    if k <= 2 {
        n
    } else {
        let q = (k - 1) as nat;
        let v = phi_below(n, q);
        if is_prime(q) && n % q == 0 {
            (v - v / q) as nat
        } else {
            v
        }
    }
}

/// Euler's totient of `n`, by the product formula over all prime divisors of `n`
/// (and 0 for `n == 0`).
pub open spec fn euler_phi(n: nat) -> nat {
    phi_below(n, n + 1)
}

proof fn lemma_divides_trans(n: nat, d: nat, e: nat)
    requires
        d > 0,
        e > 0,
        n % d == 0,
        d % e == 0,
    ensures
        n % e == 0,
{
    lemma_fundamental_div_mod(n as int, d as int);
    lemma_fundamental_div_mod(d as int, e as int);
    let a = n as int / d as int;
    let b = d as int / e as int;
    assert(n as int == (b * a) * e) by (nonlinear_arith)
        requires
            n as int == d * a,
            d as int == e * b,
    ;
    lemma_mod_multiples_basic(b * a, e as int);
}

proof fn lemma_smallest_factor_from(n: nat, start: nat) -> (d: nat)
    requires
        2 <= start <= n,
        forall|e: nat| 2 <= e < start ==> #[trigger] (n % e) != 0,
    ensures
        start <= d <= n,
        n % d == 0,
        forall|e: nat| 2 <= e < d ==> #[trigger] (n % e) != 0,
    decreases n - start,
{
    if n % start == 0 {
        start
    } else {
        lemma_mod_self_0(n as int);
        lemma_smallest_factor_from(n, start + 1)
    }
}

/// The smallest divisor of `n` above 1 is a prime.
proof fn lemma_smallest_prime_factor(n: nat) -> (d: nat)
    requires
        n >= 2,
    ensures
        2 <= d <= n,
        n % d == 0,
        is_prime(d),
        forall|e: nat| 2 <= e < d ==> #[trigger] (n % e) != 0,
{
    let d = lemma_smallest_factor_from(n, 2);
    assert forall|e: nat| 2 <= e < d implies #[trigger] (d % e) != 0 by {
        if d % e == 0 {
            lemma_divides_trans(n, d, e);
        }
    }
    d
}

pub proof fn lemma_phi_below_zero(k: nat)
    ensures
        phi_below(0, k) == 0,
    decreases k,
{
    if k > 2 {
        lemma_phi_below_zero((k - 1) as nat);
        lemma_div_of0((k - 1) as int);
    }
}

/// Each factor only lowers the value.
pub proof fn lemma_phi_below_mono(n: nat, j: nat, k: nat)
    requires
        j <= k,
    ensures
        phi_below(n, k) <= phi_below(n, j),
    decreases k,
{
    if k > j {
        lemma_phi_below_mono(n, j, (k - 1) as nat);
    }
}

/// A positive `n` keeps a positive value under every factor.
pub proof fn lemma_phi_below_pos(n: nat, k: nat)
    requires
        n >= 1,
    ensures
        phi_below(n, k) >= 1,
    decreases k,
{
    if k > 2 {
        let q = (k - 1) as nat;
        lemma_phi_below_pos(n, q);
        let v = phi_below(n, q);
        if v >= 2 {
            lemma_div_is_strictly_smaller(v as int, q as int);
            lemma_div_is_ordered_by_denominator(v as int, 2, q as int);
            assert(v - v / 2 >= 1);
        } else {
            lemma_div_is_ordered_by_denominator(v as int, 2, q as int);
        }
    }
}

/// Without a prime divisor below `k`, nothing has been taken off `n`.
proof fn lemma_phi_below_untouched(n: nat, k: nat)
    requires
        forall|q: nat| 2 <= q < k ==> #[trigger] (n % q) != 0,
    ensures
        phi_below(n, k) == n,
    decreases k,
{
    if k > 2 {
        lemma_phi_below_untouched(n, (k - 1) as nat);
    }
}

/// A composite `n` has lost something once its smallest prime factor is passed.
proof fn lemma_phi_below_drops(n: nat) -> (d: nat)
    requires
        n >= 2,
    ensures
        2 <= d <= n,
        is_prime(d),
        phi_below(n, d + 1) < n,
{
    let d = lemma_smallest_prime_factor(n);
    lemma_phi_below_untouched(n, d);
    lemma_div_non_zero(n as int, d as int);
    d
}

/// `phi_below(p, p) == p` exactly when `p` is prime.
pub proof fn lemma_prime_iff_untouched(p: nat)
    requires
        p >= 2,
    ensures
        is_prime(p) <==> phi_below(p, p) == p,
{
    if is_prime(p) {
        lemma_phi_below_untouched(p, p);
    } else {
        let d = lemma_phi_below_drops(p);
        if d == p {
            assert(false);
        }
        lemma_phi_below_mono(p, d + 1, p);
    }
}

/// The totient of a prime `p` is `p - 1`.
pub proof fn lemma_phi_of_prime(p: nat)
    requires
        is_prime(p),
    ensures
        euler_phi(p) == p - 1,
{
    lemma_phi_below_untouched(p, p);
    lemma_mod_self_0(p as int);
    lemma_div_by_self(p as int);
}

/// For `n >= 2`, `1 <= euler_phi(n) < n`.
pub proof fn lemma_phi_bounds(n: nat)
    requires
        n >= 2,
    ensures
        1 <= euler_phi(n) < n,
{
    lemma_phi_below_pos(n, n + 1);
    let d = lemma_phi_below_drops(n);
    lemma_phi_below_mono(n, d + 1, n + 1);
}

/// Past `n` itself no further prime divides `n`, so the product is complete.
pub proof fn lemma_phi_below_complete(n: nat, k: nat)
    requires
        k >= n + 1,
    ensures
        phi_below(n, k) == euler_phi(n),
    decreases k,
{
    if n == 0 {
        lemma_phi_below_zero(k);
        lemma_phi_below_zero(n + 1);
    } else if k > n + 1 {
        lemma_phi_below_complete(n, (k - 1) as nat);
        lemma_small_mod(n, (k - 1) as nat);
    }
}

/// Between two consecutive multiples of `p` lies no other multiple.
proof fn lemma_multiple_gap(a: nat, b: nat, p: nat)
    requires
        p > 0,
        a % p == 0,
        b % p == 0,
        a <= b < a + p,
    ensures
        a == b,
{
    lemma_fundamental_div_mod(a as int, p as int);
    lemma_fundamental_div_mod(b as int, p as int);
    let x = a as int / p as int;
    let y = b as int / p as int;
    assert(x == y) by (nonlinear_arith)
        requires
            a == p * x,
            b == p * y,
            a <= b < a + p,
            p > 0,
    ;
}

/// Euler's totient of every number in `0..n`, by a sieve over the primes in
/// place: each cell starts at its own index, and each prime `p`, found as a cell
/// that no smaller prime has reduced, takes `1/p` off every multiple of `p`.
pub fn totient_table(n: u32) -> (out: Vec<u32>)
    ensures
        out@.len() == n,
        forall|i: int| 0 <= i < n ==> #[trigger] out@[i] as nat == euler_phi(i as nat),
{
    let mut out: Vec<u32> = Vec::new();
    let mut j: u32 = 0;
    while j < n
        invariant
            j <= n,
            out@.len() == j,
            forall|i: int| 0 <= i < j ==> #[trigger] out@[i] == i,
        decreases n - j,
    {
        out.push(j);
        j = j + 1;
    }
    let mut p: u32 = 2;
    while p < n
        invariant
            2 <= p,
            n <= 2 || p <= n,
            out@.len() == n,
            forall|i: int| 0 <= i < n ==> #[trigger] out@[i] as nat == phi_below(i as nat, p as nat),
        decreases n - p,
    {
        proof {
            lemma_prime_iff_untouched(p as nat);
        }
        if out[p as usize] == p {
            proof {
                lemma_div_by_self(p as int);
                lemma_mod_self_0(p as int);
                lemma_phi_below_zero(p as nat);
                lemma_phi_below_zero(p as nat + 1);
            }
            out.set(p as usize, p - 1);
            let mut i: u64 = 2 * p as u64;
            proof {
                lemma_mod_multiples_basic(2, p as int);
                assert(p as nat % p as nat == 0);
                assert forall|k: int| 0 <= k < 2 * p && #[trigger] (k % (p as int)) == 0 implies k == 0
                    || k == p by {
                    if k < p {
                        lemma_multiple_gap(0, k as nat, p as nat);
                    } else {
                        lemma_multiple_gap(p as nat, k as nat, p as nat);
                    }
                }
            }
            while i < n as u64
                invariant
                    2 <= p < n,
                    is_prime(p as nat),
                    out@.len() == n,
                    i % (p as u64) == 0,
                    i < n as u64 + p as u64,
                    forall|k: int| 0 <= k < n ==> #[trigger] out@[k] as nat == if k % (p as int) == 0
                        && k < i {
                        phi_below(k as nat, p as nat + 1)
                    } else {
                        phi_below(k as nat, p as nat)
                    },
                decreases n as int + p as int - i as int,
            {
                let v = out[i as usize];
                proof {
                    lemma_div_basics_5(v as int, p as int);
                }
                out.set(i as usize, v - v / p);
                proof {
                    assert forall|k: int| 0 <= k < n && #[trigger] (k % (p as int)) == 0 && i <= k < i
                        + p implies k == i by {
                        lemma_multiple_gap(i as nat, k as nat, p as nat);
                    }
                    lemma_mod_add_multiples_vanish(i as int, p as int);
                }
                i = i + p as u64;
            }
        }
        p = p + 1;
    }
    proof {
        assert forall|i: int| 0 <= i < n implies #[trigger] out@[i] as nat == euler_phi(i as nat) by {
            lemma_phi_below_complete(i as nat, p as nat);
        }
    }
    out
}

/// The totient of 1 is 1, and that of a prime `p` is `p - 1`.
pub proof fn lemma_totient_fixed_points(p: nat)
    ensures
        euler_phi(1) == 1,
        is_prime(p) ==> euler_phi(p) == p - 1,
{
    assert(phi_below(1, 2) == 1);
    if is_prime(p) {
        lemma_phi_of_prime(p);
    }
}

} // verus!
