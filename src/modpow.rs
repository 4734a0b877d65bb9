use vstd::prelude::*;
use vstd::arithmetic::power::*;
use vstd::arithmetic::div_mod::*;

verus! {

/// One squaring step keeps `out * base^e` unchanged modulo `m`: the low bit
/// of `e` is folded into `out`, and `base` is squared while `e` is halved.
proof fn lemma_square_step(out: int, base: int, e: nat, m: int)
    requires
        m > 0,
    ensures
        ((if e % 2 == 1 { (out * base) % m } else { out }) * pow((base * base) % m, e / 2)) % m
            == (out * pow(base, e)) % m,
{
    let h = e / 2;
    let r: nat = e % 2;
    let bb = base * base;
    let o2 = if r == 1 { (out * base) % m } else { out };
    assert(e == 2 * h + r);
    lemma_pow_adds(base, 2 * h, r);
    lemma_pow_multiplies(base, 2, h);
    lemma_square_is_pow2(base);
    lemma_pow_mod_noop(bb, h, m);
    lemma_mul_mod_noop_right(o2, pow(bb, h), m);
    lemma_mul_mod_noop_right(o2, pow(bb % m, h), m);
    assert((o2 * pow(bb % m, h)) % m == (o2 * pow(bb, h)) % m);
    lemma_pow1(base);
    lemma_pow0(base);
    if r == 1 {
        assert(pow(base, r) == base);
        lemma_mul_mod_noop_left(out * base, pow(bb, h), m);
        assert((o2 * pow(bb, h)) % m == (out * base * pow(bb, h)) % m);
        assert(pow(base, e) == pow(base, 2 * h) * base) by (nonlinear_arith)
            requires
                pow(base, e) == pow(base, 2 * h) * pow(base, r),
                pow(base, r) == base,
        ;
        assert(out * base * pow(bb, h) == out * pow(base, e)) by (nonlinear_arith)
            requires
                pow(base, e) == pow(base, 2 * h) * base,
                pow(base, 2 * h) == pow(bb, h),
        ;
    } else {
        assert(pow(base, e) == pow(base, 2 * h)) by (nonlinear_arith)
            requires
                pow(base, e) == pow(base, 2 * h) * pow(base, r),
                pow(base, r) == 1,
        ;
    }
}

/// Computes `base^exponent mod modulus` by repeated squaring, in
/// `O(log exponent)` steps, with 64-bit intermediates.
pub fn modexp(base: u32, exponent: u32, modulus: u32) -> (r: u32)
    requires
        modulus >= 1,
    ensures
        r == pow(base as int, exponent as nat) % (modulus as int),
{
    let mut b: u64 = base as u64;
    let m: u64 = modulus as u64;
    let mut e: u32 = exponent;
    let mut out: u64 = 1 % m;
    proof {
        lemma_mul_mod_noop_left(1, pow(base as int, exponent as nat), m as int);
    }
    while e > 0
        invariant
            m == modulus as u64,
            m >= 1,
            out < m,
            b < 0x1_0000_0000,
            (out * pow(b as int, e as nat)) % (m as int)
                == pow(base as int, exponent as nat) % (m as int),
        decreases e,
    {
        proof {
            lemma_square_step(out as int, b as int, e as nat, m as int);
        }
        if e % 2 == 1 {
            assert(out * b < 0x1_0000_0000_0000_0000) by (nonlinear_arith)
                requires
                    out < 0x1_0000_0000,
                    b < 0x1_0000_0000,
            ;
            out = (out * b) % m;
        }
        assert(b * b < 0x1_0000_0000_0000_0000) by (nonlinear_arith)
            requires
                b < 0x1_0000_0000,
        ;
        b = (b * b) % m;
        e = e / 2;
    }
    proof {
        lemma_pow0(b as int);
        lemma_small_mod(out as nat, m as nat);
    }
    out as u32
}

/// A zero exponent gives `1 mod m`.
pub proof fn lemma_zero_exponent(b: int, m: int)
    requires
        m >= 1,
    ensures
        pow(b, 0) % m == 1int % m,
{
    lemma_pow0(b);
}

} // verus!
