//! Montgomery reduction on single bytes.

use vstd::prelude::*;
use vstd::arithmetic::div_mod::{
    lemma_fundamental_div_mod, lemma_mod_multiples_basic, lemma_mod_multiples_vanish,
    lemma_mul_mod_noop_general,
};

verus! {

/// Two numbers with the same remainder differ by a multiple of the
/// modulus.
proof fn lemma_same_remainder(big: int, small: int, r: int)
    requires
        0 < r,
        0 <= small <= big,
        big % r == small % r,
    ensures
        (big - small) % r == 0,
        ((big - small) / r) * r == big - small,
        0 <= (big - small) / r,
        small < big ==> 1 <= (big - small) / r,
{
    lemma_fundamental_div_mod(big, r);
    lemma_fundamental_div_mod(small, r);
    let k = big / r - small / r;
    assert(big - small == k * r) by (nonlinear_arith)
        requires
            big == r * (big / r) + big % r,
            small == r * (small / r) + small % r,
            big % r == small % r,
            k == big / r - small / r,
    ;
    lemma_mod_multiples_basic(k, r);
    lemma_fundamental_div_mod(big - small, r);
    let d = (big - small) / r;
    assert(d * r == big - small) by (nonlinear_arith)
        requires
            big - small == r * d + 0,
    ;
    assert(0 <= d && (small < big ==> 1 <= d)) by (nonlinear_arith)
        requires
            d * r == big - small,
            0 < r,
            0 <= big - small,
    ;
}

/// The number that the reduction subtracts has the remainder of `x`
/// modulo `r`.
proof fn lemma_matches_modulo(x: int, n: int, n_prime: int, r: int)
    requires
        0 < r,
        (n * n_prime) % r == 1,
    ensures
        ((((x % r) * (n_prime % r)) % r) * n) % r == x % r,
{
    lemma_mul_mod_noop_general(x, n_prime, r);
    lemma_mul_mod_noop_general(x * n_prime, n, r);
    assert((x * n_prime) * n == x * (n * n_prime)) by (nonlinear_arith);
    lemma_mul_mod_noop_general(x, n * n_prime, r);
    assert(x * 1 == x);
}

/// Montgomery reduction: for `r = 2^m` and `n_prime` the inverse of `n`
/// modulo `r`, the result times `r` is `x` modulo `n`; for `x` below
/// `n * r` the result is below `n`.
pub fn reduce(x: u8, n: u8, n_prime: u8, m: u8, r: u8) -> (a: u8)
    requires
        m < 8,
        r == 1u8 << m,
        (n * n_prime) % (r as int) == 1,
    ensures
        0 < n,
        (a * r) % (n as int) == (x as int) % (n as int),
        x < n * r ==> a < n,
{
    assert(r >= 1) by (bit_vector)
        requires
            m < 8,
            r == 1u8 << m,
    ;
    let mask: u8 = r - 1;
    let xmodr: u8 = x & mask;
    let n_prime_modr: u8 = n_prime & mask;
    assert(xmodr == x % r && n_prime_modr == n_prime % r) by (bit_vector)
        requires
            m < 8,
            r == 1u8 << m,
            mask == r - 1,
            xmodr == x & mask,
            n_prime_modr == n_prime & mask,
    ;
    assert(xmodr * n_prime_modr <= 255 * 255) by (nonlinear_arith)
        requires
            xmodr <= 255,
            n_prime_modr <= 255,
    ;
    let q: u16 = (xmodr as u16) * (n_prime_modr as u16);
    let qmodr: u16 = q & (mask as u16);
    assert(qmodr == q % (r as u16) && qmodr <= 254) by (bit_vector)
        requires
            m < 8,
            r == 1u8 << m,
            mask == r - 1,
            qmodr == q & (mask as u16),
    ;
    assert(qmodr * n <= 254 * 255) by (nonlinear_arith)
        requires
            qmodr <= 254,
            n <= 255,
    ;
    let q2: u16 = qmodr * (n as u16);
    let x16: u16 = x as u16;
    proof {
        lemma_matches_modulo(x as int, n as int, n_prime as int, r as int);
        assert((q2 as int) % (r as int) == (x as int) % (r as int));
        if n == 0 {
            assert(n * n_prime == 0);
            assert(0int % (r as int) == 0);
        }
    }
    if x16 >= q2 {
        let d: u16 = x16 - q2;
        let a: u16 = d >> m;
        assert(a == d / (r as u16)) by (bit_vector)
            requires
                m < 8,
                r == 1u8 << m,
                a == d >> m,
        ;
        proof {
            lemma_same_remainder(x as int, q2 as int, r as int);
            assert(a * r == x - qmodr * n);
            lemma_mod_multiples_vanish(-(qmodr as int), x as int, n as int);
            assert(n * (-(qmodr as int)) + x == x - qmodr * n) by (nonlinear_arith);
            assert(a <= 255) by (nonlinear_arith)
                requires
                    a * r == d,
                    d <= 255,
                    r >= 1,
                    a >= 0,
            ;
            if x < n * r {
                assert(a < n) by (nonlinear_arith)
                    requires
                        a * r == d,
                        d <= x,
                        x < n * r,
                        r >= 1,
                ;
            }
        }
        a as u8
    } else {
        let e: u16 = q2 - x16;
        let k: u16 = e >> m;
        assert(k == e / (r as u16)) by (bit_vector)
            requires
                m < 8,
                r == 1u8 << m,
                k == e >> m,
        ;
        proof {
            lemma_same_remainder(q2 as int, x as int, r as int);
            assert(k * r == qmodr * n - x);
            assert(1 <= k < n) by (nonlinear_arith)
                requires
                    k * r == qmodr * n - x,
                    1 <= k,
                    qmodr < r,
                    0 <= x,
                    0 < n,
                    r >= 1,
            ;
            let a = n - k;
            assert(a * r == n * (r - qmodr) + x) by (nonlinear_arith)
                requires
                    a == n - k,
                    k * r == qmodr * n - x,
            ;
            lemma_mod_multiples_vanish(r - qmodr, x as int, n as int);
        }
        (n as u16 - k) as u8
    }
}

} // verus!
