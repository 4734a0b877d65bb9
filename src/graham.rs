use vstd::prelude::*;
use vstd::arithmetic::power::*;
use vstd::arithmetic::div_mod::*;
use crate::modpow::modexp;
use crate::totient::{
    euler_phi,
    is_prime,
    phi_below,
    lemma_phi_below_pos,
    lemma_phi_bounds,
    lemma_phi_of_prime,
    totient_table,
};

verus! {

/// The coefficient `a` kept for a multiple `i` of 3, with
/// `a * 3^k == 3^(k-1) (mod i/3)` for every large enough `k`: the inverse of 3
/// modulo the part `q` of `i/3` prime to 3, written `3^(phi(q) - 1) mod q`, and
/// carried unchanged from `i/3` to `i` while `i/3` is itself a multiple of 3.
pub open spec fn transitional(i: nat) -> nat
    decreases i,
{
    if i < 3 {
        0
    } else {
        let q = i / 3;
        if q % 3 != 0 {
            (pow(3, (euler_phi(q) - 1) as nat) % (q as int)) as nat
        } else {
            transitional(q)
        }
    }
}

/// `G mod i` for every sufficiently tall power tower `G` of 3s, by Euler's
/// reduction: for `i` prime to 3, `3^E mod i == 3^(E mod phi(i)) mod i`; for a
/// multiple of 3, `G mod i == 3 * ((a * (G mod i/3)) mod i/3)` with `a` the
/// transitional coefficient of `i`.
pub open spec fn graham_residue(i: nat) -> nat
    decreases i,
{
    if i < 2 {
        0
    } else if i % 3 == 0 {
        let q = i / 3;
        3 * ((transitional(i) * graham_residue(q)) % q)
    } else {
        let t = euler_phi(i);
        if t < i {
            (pow(3, graham_residue(t)) % (i as int)) as nat
        } else {
            0
        }
    }
}

/// What cell `i` holds when the scan is about to process index `n`: the final
/// residue below `n`; the transitional coefficient for the multiples of 3 in
/// `n..3n`; the totient everywhere else.
pub open spec fn scan_cell(i: nat, n: nat) -> nat {
    if i < n {
        graham_residue(i)
    } else if i % 3 == 0 && i < 3 * n {
        transitional(i)
    } else {
        euler_phi(i)
    }
}

/// The buffer is in the state of the scan just before index `n`.
pub open spec fn scan_state(buf: Seq<u32>, n: nat) -> bool {
    forall|i: int| 0 <= i < buf.len() ==> #[trigger] buf[i] as nat == scan_cell(i as nat, n)
}

/// Every cell holds the residue of a tall tower of 3s modulo its index.
pub open spec fn is_graham_table(buf: Seq<u32>) -> bool {
    forall|i: int| 0 <= i < buf.len() ==> #[trigger] buf[i] as nat == graham_residue(i as nat)
}

/// The buffer of length `max` ready for the scan: the totient table, with the
/// residue modulo 1 and the transitional coefficient of 3 seeded.
pub fn graham_start(max: u32) -> (buf: Vec<u32>)
    ensures
        buf@.len() == max,
        scan_state(buf@, 2),
{
    let mut buf = totient_table(max);
    if max > 1 {
        buf.set(1, 0);
    }
    if max > 3 {
        buf.set(3, 0);
    }
    proof {
        assert(phi_below(1, 2) == 1);
        assert(euler_phi(1) == 1);
        lemma_pow0(3);
        assert(transitional(3) == 0);
        assert forall|i: int| 0 <= i < buf@.len() implies #[trigger] buf@[i] as nat == scan_cell(
            i as nat,
            2,
        ) by {
            if i == 0 {
                crate::totient::lemma_phi_below_zero(1);
            }
        }
    }
    buf
}

/// Processes index `n`: turns cell `n` into its final residue and, when `3n` is
/// in the buffer, leaves the transitional coefficient of `3n` there.
pub fn graham_step(buf: &mut Vec<u32>, n: u32)
    requires
        2 <= n < old(buf)@.len(),
        scan_state(old(buf)@, n as nat),
    ensures
        final(buf)@.len() == old(buf)@.len(),
        scan_state(final(buf)@, n as nat + 1),
{
    let ghost old_buf = buf@;
    let max = buf.len();
    if n % 3 == 0 {
        let q: u32 = n / 3;
        let a: u64 = buf[n as usize] as u64;
        let g: u64 = buf[q as usize] as u64;
        assert(a * g < 0x1_0000_0000_0000_0000) by (nonlinear_arith)
            requires
                a < 0x1_0000_0000,
                g < 0x1_0000_0000,
        ;
        let g_mod_n: u64 = 3 * ((a * g) % (q as u64));
        assert(old_buf[q as int] as nat == scan_cell(q as nat, n as nat));
        assert(old_buf[n as int] as nat == scan_cell(n as nat, n as nat));
        assert(g_mod_n == graham_residue(n as nat));
        buf.set(n as usize, g_mod_n as u32);
        if (n as usize) <= (max - 1) / 3 {
            buf.set(3 * n as usize, a as u32);
            assert(transitional(3 * n as nat) == transitional(n as nat)) by {
                assert((3 * n as nat) / 3 == n as nat);
            }
        }
    } else {
        let t: u32 = buf[n as usize];
        assert(old_buf[n as int] as nat == scan_cell(n as nat, n as nat));
        proof {
            lemma_phi_bounds(n as nat);
        }
        let r: u32 = buf[t as usize];
        assert(old_buf[t as int] as nat == scan_cell(t as nat, n as nat));
        let g_mod_n = modexp(3, r, n);
        buf.set(n as usize, g_mod_n);
        if (n as usize) <= (max - 1) / 3 {
            let a = modexp(3, t - 1, n);
            buf.set(3 * n as usize, a);
            assert(transitional(3 * n as nat) == a) by {
                assert((3 * n as nat) / 3 == n as nat);
            }
        }
    }
    proof {
        assert forall|i: int| 0 <= i < buf@.len() implies #[trigger] buf@[i] as nat == scan_cell(
            i as nat,
            n as nat + 1,
        ) by {
            if i != n && i != 3 * n {
                assert(old_buf[i] as nat == scan_cell(i as nat, n as nat));
            }
        }
    }
}

/// The residue of Graham's number (a power tower of 3s far taller than any
/// totient chain below `max`) modulo every index in `0..max`, computed in one
/// forward scan over a single buffer.
pub fn graham_table(max: u32) -> (buf: Vec<u32>)
    ensures
        buf@.len() == max,
        is_graham_table(buf@),
{
    let mut buf = graham_start(max);
    let mut n: u32 = 2;
    while n < max
        invariant
            2 <= n,
            max <= 2 || n <= max,
            buf@.len() == max,
            scan_state(buf@, n as nat),
        decreases max - n,
    {
        graham_step(&mut buf, n);
        n = n + 1;
    }
    proof {
        assert forall|i: int| 0 <= i < buf@.len() implies #[trigger] buf@[i] as nat
            == graham_residue(i as nat) by {
            assert(buf@[i] as nat == scan_cell(i as nat, n as nat));
        }
    }
    buf
}

/// The residue modulo 1 is 0, and modulo 2 it is 1: every tower of 3s is odd.
pub proof fn lemma_base_residues(buf: Seq<u32>)
    requires
        is_graham_table(buf),
        buf.len() > 1,
    ensures
        buf[1] == 0,
        buf.len() > 2 ==> buf[2] == 1,
{
    assert(buf[1] as nat == graham_residue(1));
    if buf.len() > 2 {
        assert(buf[2] as nat == graham_residue(2));
        assert(is_prime(2));
        lemma_phi_of_prime(2);
        lemma_pow0(3);
        assert(graham_residue(2) == 1);
    }
}

/// While the scan sits between `i` (prime to 3) and `3i`, cell `i` holds its
/// residue and cell `3i` holds `a = 3^(phi(i) - 1) mod i`, so that
/// `a * 3^k == 3^(phi(i) - 1 + k) (mod i)` for every `k`.
pub proof fn lemma_transitional_stored(buf: Seq<u32>, n: nat, i: nat, k: nat)
    requires
        scan_state(buf, n),
        i >= 1,
        i % 3 != 0,
        i < n <= 3 * i,
        3 * i < buf.len(),
    ensures
        buf[i as int] as nat == graham_residue(i),
        buf[3 * i as int] as int == pow(3, (euler_phi(i) - 1) as nat) % (i as int),
        (buf[3 * i as int] * pow(3, k)) % (i as int) == pow(3, (euler_phi(i) - 1 + k) as nat) % (
        i as int),
{
    assert(buf[i as int] as nat == scan_cell(i, n));
    assert(buf[3 * i as int] as nat == scan_cell(3 * i, n));
    assert((3 * i) / 3 == i);
    lemma_phi_below_pos(i, i + 1);
    let e = (euler_phi(i) - 1) as nat;
    assert(e + k == (euler_phi(i) - 1 + k) as nat);
    lemma_mul_mod_noop_left(pow(3, e), pow(3, k), i as int);
    lemma_pow_adds(3, e, k);
}

/// An entry of the table does not depend on the table's length: two tables
/// agree on every index that both hold.
pub proof fn lemma_truncation_stable(a: Seq<u32>, b: Seq<u32>, i: int)
    requires
        is_graham_table(a),
        is_graham_table(b),
        0 <= i < a.len(),
        i < b.len(),
    ensures
        a[i] == b[i],
{
    assert(a[i] as nat == graham_residue(i as nat));
    assert(b[i] as nat == graham_residue(i as nat));
}

} // verus!
