use graham_residues::graham::{graham_start, graham_step, graham_table};
use graham_residues::modpow::modexp;
use graham_residues::totient::totient_table;

fn gcd(a: u64, b: u64) -> u64 {
    if b == 0 {
        a
    } else {
        gcd(b, a % b)
    }
}

fn trial_totient(n: u64) -> u64 {
    (1..=n).filter(|&k| gcd(k, n) == 1).count() as u64
}

fn naive_pow_mod(base: u64, exponent: u64, modulus: u64) -> u64 {
    let mut out = 1 % modulus;
    for _ in 0..exponent {
        out = out * (base % modulus) % modulus;
    }
    out
}

/// Preperiod and period of the sequence `3^k mod m`, found by walking it.
fn cycle_of_three(m: u64) -> (u64, u64) {
    let mut first_seen = vec![u64::MAX; m as usize];
    let mut x = 1 % m;
    let mut k = 0;
    loop {
        if first_seen[x as usize] != u64::MAX {
            let mu = first_seen[x as usize];
            return (mu, k - mu);
        }
        first_seen[x as usize] = k;
        x = x * 3 % m;
        k += 1;
    }
}

/// `3^3^...^3` (with `height` threes) modulo `m`, by following the actual
/// cycle of the powers of 3 rather than any totient.
fn tower_mod(height: u32, m: u64) -> u64 {
    if m == 1 {
        return 0;
    }
    match height {
        0 => 1 % m,
        1 => 3 % m,
        2 => naive_pow_mod(3, 3, m),
        3 => naive_pow_mod(3, 27, m),
        _ => {
            // The exponent is at least 3^27, beyond any preperiod here.
            let (mu, lam) = cycle_of_three(m);
            let mut e = tower_mod(height - 1, lam);
            while e < mu {
                e += lam;
            }
            naive_pow_mod(3, e, m)
        }
    }
}

#[test]
fn totient_matches_trial_division() {
    let table = totient_table(1000);
    assert_eq!(table.len(), 1000);
    assert_eq!(table[0], 0);
    for n in 1..1000u64 {
        assert_eq!(table[n as usize] as u64, trial_totient(n), "totient({})", n);
    }
}

#[test]
fn totient_fixed_points() {
    let table = totient_table(200);
    assert_eq!(table[1], 1);
    for p in [2u32, 3, 5, 7, 11, 13, 97, 101, 199] {
        assert_eq!(table[p as usize], p - 1);
    }
    assert_eq!(table[12], 4);
    assert_eq!(table[36], 12);
    assert_eq!(table[128], 64);
}

#[test]
fn totient_small_sizes() {
    assert!(totient_table(0).is_empty());
    assert_eq!(totient_table(1), vec![0]);
    assert_eq!(totient_table(2), vec![0, 1]);
    assert_eq!(totient_table(7), vec![0, 1, 1, 2, 2, 4, 2]);
}

#[test]
fn modexp_matches_naive() {
    for base in 0..12u32 {
        for exponent in 0..20u32 {
            for modulus in 1..30u32 {
                assert_eq!(
                    modexp(base, exponent, modulus) as u64,
                    naive_pow_mod(base as u64, exponent as u64, modulus as u64)
                );
            }
        }
    }
}

#[test]
fn modexp_zero_exponent() {
    for base in [0u32, 1, 2, 3, 1000, u32::MAX] {
        assert_eq!(modexp(base, 0, 1), 0);
        for modulus in [2u32, 3, 7, 1000, u32::MAX] {
            assert_eq!(modexp(base, 0, modulus), 1);
        }
    }
}

#[test]
fn modexp_exact_values() {
    assert_eq!(modexp(3, 5, 7), 5);
    assert_eq!(modexp(2, 10, 1000), 24);
    assert_eq!(modexp(2, 32, u32::MAX), 1);
    assert_eq!(modexp(u32::MAX, u32::MAX, u32::MAX), 0);
    assert_eq!(modexp(u32::MAX - 1, 2, u32::MAX), 1);
    assert_eq!(modexp(3, 1_000_000_006, 1_000_000_007), 1);
    assert_eq!(modexp(3, 1_000_000_005, 1_000_000_007), 333_333_336);
}

#[test]
fn residue_base_cases() {
    for max in 2..40u32 {
        let table = graham_table(max);
        assert_eq!(table.len(), max as usize);
        assert_eq!(table[1], 0);
        if max > 2 {
            assert_eq!(table[2], 1);
        }
    }
}

#[test]
fn residue_tiny_tables() {
    assert!(graham_table(0).is_empty());
    assert_eq!(graham_table(1), vec![0]);
    assert_eq!(graham_table(2), vec![0, 0]);
    assert_eq!(graham_table(3), vec![0, 0, 1]);
    assert_eq!(graham_table(4), vec![0, 0, 1, 0]);
}

#[test]
fn transitional_value_before_its_turn() {
    let max = 300u32;
    let mut buf = graham_start(max);
    for n in 2..max {
        // Cells 3i with i < n <= 3i hold their transitional coefficient.
        for i in 1..n {
            if i % 3 != 0 && n <= 3 * i && 3 * i < max {
                let a = buf[(3 * i) as usize] as u64;
                for k in 1..40u32 {
                    let lhs = a * modexp(3, k, i) as u64 % i as u64;
                    let rhs = modexp(3, k - 1, i) as u64;
                    assert_eq!(lhs, rhs, "i = {}, k = {}", i, k);
                }
            }
        }
        graham_step(&mut buf, n);
    }
    assert_eq!(buf, graham_table(max));
}

#[test]
fn residue_stable_under_truncation() {
    let long = graham_table(1013);
    for max in [5u32, 10, 13, 14, 100, 299, 300, 301, 1000, 1012] {
        let short = graham_table(max);
        assert_eq!(&short[..], &long[..max as usize], "max = {}", max);
    }
}

#[test]
fn last_multiple_of_three_gets_its_coefficient() {
    // 12 is the last multiple of 3 below 13: G mod 12 == 3, as G is 0 mod 3 and 3 mod 4.
    assert_eq!(graham_table(13)[12], 3);
    assert_eq!(graham_table(14)[12], 3);
    assert_eq!(graham_table(11)[9], 0);
}

#[test]
fn residues_of_ten() {
    let table = graham_table(10);
    let expected: Vec<u32> = (0..10u64)
        .map(|i| if i == 0 { 0 } else { tower_mod(4, i) as u32 })
        .collect();
    assert_eq!(table, expected);
    assert_eq!(table, vec![0, 0, 1, 0, 3, 2, 3, 6, 3, 0]);
}

#[test]
fn residues_match_tower_oracle() {
    let table = graham_table(1000);
    for i in 1..1000u64 {
        assert_eq!(table[i as usize] as u64, tower_mod(40, i), "i = {}", i);
        assert_eq!(table[i as usize] as u64, tower_mod(60, i), "i = {}", i);
    }
}

#[test]
fn short_tower_falls_short_for_long_totient_chains() {
    // 283 is prime and its totient chain is long: five threes are not enough.
    assert_eq!(tower_mod(5, 283), 279);
    assert_eq!(graham_table(284)[283], 120);
}

#[test]
fn residues_known_values() {
    let table = graham_table(101);
    // Last digits of Graham's number end in ...387.
    assert_eq!(table[10], 7);
    assert_eq!(table[100], 87);
    assert_eq!(table[27], 0);
    assert_eq!(table[4], 3);
}
