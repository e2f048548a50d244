//! Facts about primes behind ElGamal decryption: Euclid's lemma and
//! Fermat's little theorem, the latter through the binomial expansion of
//! `(a + 1)^p`.
use vstd::arithmetic::div_mod::{
    lemma_fundamental_div_mod, lemma_fundamental_div_mod_converse, lemma_mod_multiples_basic,
};
use vstd::arithmetic::power::{lemma_pow0, lemma_pow1, lemma_pow_adds, lemma_pow_positive, pow};
use vstd::prelude::*;

verus! {

/// `p` is prime: at least two, and no number strictly between one and `p`
/// divides it.
pub open spec fn is_prime(p: nat) -> bool {
    p >= 2 && forall|d: nat| 2 <= d < p ==> #[trigger] (p % d) != 0
}

/// Euclid's lemma: a prime that divides `k * c`, with `0 < k < p`, divides `c`.
pub proof fn lemma_euclid(p: nat, k: nat, c: nat)
    requires
        is_prime(p),
        0 < k < p,
        (k * c) % p == 0,
    ensures
        c % p == 0,
    decreases k,
{
    if k == 1 {
        assert(k * c == c) by (nonlinear_arith)
            requires
                k == 1,
        ;
    } else {
        let r = p % k;
        let q = p / k;
        lemma_fundamental_div_mod(p as int, k as int);
        assert(r != 0);
        let t = (k * c) / p;
        lemma_fundamental_div_mod((k * c) as int, p as int);
        assert(k * c == p * t);
        assert(r * c == p * (c - q * t)) by (nonlinear_arith)
            requires
                p == k * q + r,
                k * c == p * t,
        ;
        assert(c - q * t >= 0) by (nonlinear_arith)
            requires
                r * c == p * (c - q * t),
                p > 0,
                r > 0,
        ;
        lemma_mod_multiples_basic(c - q * t, p as int);
        assert((r * c) % p == 0) by {
            assert((c - q * t) * p == p * (c - q * t)) by (nonlinear_arith);
        }
        lemma_euclid(p, r, c);
    }
}

/// The binomial coefficient `n` choose `k`, by Pascal's rule.
pub open spec fn binom(n: nat, k: nat) -> nat
    decreases n,
{
    if k == 0 {
        1
    } else if n == 0 {
        0
    } else {
        binom((n - 1) as nat, (k - 1) as nat) + binom((n - 1) as nat, k)
    }
}

/// Choosing more than there is gives zero.
pub proof fn lemma_binom_above(n: nat, k: nat)
    requires
        k > n,
    ensures
        binom(n, k) == 0,
    decreases n,
{
    if n > 0 {
        lemma_binom_above((n - 1) as nat, (k - 1) as nat);
        lemma_binom_above((n - 1) as nat, k);
    }
}

/// Choosing everything gives one.
pub proof fn lemma_binom_all(n: nat)
    ensures
        binom(n, n) == 1,
    decreases n,
{
    if n > 0 {
        lemma_binom_all((n - 1) as nat);
        lemma_binom_above((n - 1) as nat, n);
    }
}

/// The absorption identity `k * C(n, k) == n * C(n-1, k-1)`.
pub proof fn lemma_binom_absorb(n: nat, k: nat)
    requires
        n >= 1,
        k >= 1,
    ensures
        k * binom(n, k) == n * binom((n - 1) as nat, (k - 1) as nat),
    decreases n,
{
    if n == 1 {
        if k >= 2 {
            lemma_binom_above(0, (k - 1) as nat);
            lemma_binom_above(0, k);
            assert(binom(1, k) == 0);
            assert(binom(0, (k - 1) as nat) == 0);
        } else {
            assert(binom(0, 1) == 0);
            assert(binom(1, 1) == 1);
            assert(binom(0, 0) == 1);
        }
    } else if k == 1 {
        lemma_binom_absorb((n - 1) as nat, 1);
        assert(binom((n - 2) as nat, 0) == 1);
        assert(binom((n - 1) as nat, 0) == 1);
        assert(binom((n - 1) as nat, 1) == n - 1);
        assert(binom(n, 1) == 1 + binom((n - 1) as nat, 1));
    } else {
        lemma_binom_absorb((n - 1) as nat, k);
        lemma_binom_absorb((n - 1) as nat, (k - 1) as nat);
        let a = binom((n - 1) as nat, (k - 1) as nat);
        let b = binom((n - 1) as nat, k);
        let c = binom((n - 2) as nat, (k - 2) as nat);
        let d = binom((n - 2) as nat, (k - 1) as nat);
        assert(binom(n, k) == a + b);
        assert(a == c + d);
        assert(k * (a + b) == n * a) by (nonlinear_arith)
            requires
                k * b == (n - 1) * d,
                (k - 1) * a == (n - 1) * c,
                a == c + d,
        ;
    }
}

/// A prime divides the middle coefficients of its row.
pub proof fn lemma_prime_divides_binom(p: nat, k: nat)
    requires
        is_prime(p),
        0 < k < p,
    ensures
        binom(p, k) % p == 0,
{
    lemma_binom_absorb(p, k);
    let b = binom((p - 1) as nat, (k - 1) as nat);
    lemma_mod_multiples_basic(b as int, p as int);
    assert(k * binom(p, k) == b * p) by (nonlinear_arith)
        requires
            k * binom(p, k) == p * b,
    ;
    lemma_euclid(p, k, binom(p, k));
}

/// The first terms of the binomial expansion of `(a + 1)^n`: the sum of
/// `C(n, i) * a^i` for `i` up to `k`.
pub open spec fn binom_sum(a: int, n: nat, k: nat) -> int
    decreases k,
{
    if k == 0 {
        1
    } else {
        binom_sum(a, n, (k - 1) as nat) + binom(n, k) * pow(a, k)
    }
}

/// Pascal's rule on partial sums.
pub proof fn lemma_binom_sum_step(a: int, n: nat, k: nat)
    requires
        k >= 1,
    ensures
        binom_sum(a, n + 1, k) == binom_sum(a, n, k) + a * binom_sum(a, n, (k - 1) as nat),
    decreases k,
{
    lemma_pow1(a);
    if k == 1 {
        assert(binom(n + 1, 1) == binom(n, 0) + binom(n, 1));
        assert(binom(n, 0) == 1);
        assert(binom_sum(a, n, 0) == 1);
        reveal_with_fuel(binom_sum, 2);
        assert(binom_sum(a, n + 1, 1) == 1 + binom(n + 1, 1) * pow(a, 1));
        assert(binom_sum(a, n, 1) == 1 + binom(n, 1) * pow(a, 1));
        assert((1 + binom(n, 1)) * a == binom(n, 1) * a + a) by (nonlinear_arith);
    } else {
        lemma_binom_sum_step(a, n, (k - 1) as nat);
        lemma_pow_adds(a, 1, (k - 1) as nat);
        let s1 = binom_sum(a, n, (k - 1) as nat);
        let s2 = binom_sum(a, n, (k - 2) as nat);
        let c1 = binom(n, (k - 1) as nat);
        let c2 = binom(n, k);
        let q = pow(a, (k - 1) as nat);
        assert(binom(n + 1, k) == c1 + c2);
        assert(pow(a, k) == a * q);
        assert(s1 == s2 + c1 * q);
        assert((c1 + c2) * (a * q) + a * s2 == c2 * (a * q) + a * (s2 + c1 * q))
            by (nonlinear_arith);
    }
}

/// The binomial theorem for `(a + 1)^n`.
pub proof fn lemma_binomial(a: int, n: nat)
    ensures
        pow(a + 1, n) == binom_sum(a, n, n),
    decreases n,
{
    if n == 0 {
        lemma_pow0(a + 1);
    } else {
        let m = (n - 1) as nat;
        lemma_binomial(a, m);
        lemma_binom_sum_step(a, m, n);
        lemma_binom_above(m, n);
        lemma_pow_adds(a + 1, 1, m);
        lemma_pow1(a + 1);
        let s = binom_sum(a, m, m);
        assert(binom_sum(a, m, n) == s);
        assert(s + a * s == (a + 1) * s) by (nonlinear_arith);
    }
}

/// Below the last term, the expansion of `(a + 1)^p` is one more than a
/// multiple of `p`; the multiple is returned.
proof fn lemma_binom_sum_mod_prime(a: int, p: nat, k: nat) -> (m: int)
    requires
        is_prime(p),
        k < p,
    ensures
        binom_sum(a, p, k) == 1 + p * m,
    decreases k,
{
    if k == 0 {
        0
    } else {
        let m0 = lemma_binom_sum_mod_prime(a, p, (k - 1) as nat);
        lemma_prime_divides_binom(p, k);
        let b = binom(p, k);
        lemma_fundamental_div_mod(b as int, p as int);
        let t = b / p;
        assert(b == p * t);
        let w = pow(a, k);
        assert(1 + p * m0 + b * w == 1 + p * (m0 + t * w)) by (nonlinear_arith)
            requires
                b == p * t,
        ;
        m0 + t * w
    }
}

/// `(a + 1)^p - a^p - 1` is a multiple of the prime `p`; the multiple is returned.
proof fn lemma_freshman(a: int, p: nat) -> (m: int)
    requires
        is_prime(p),
    ensures
        pow(a + 1, p) == pow(a, p) + 1 + p * m,
{
    lemma_binomial(a, p);
    let m = lemma_binom_sum_mod_prime(a, p, (p - 1) as nat);
    lemma_binom_all(p);
    m
}

/// `a^p - a` is a multiple of the prime `p`; the multiple is returned.
proof fn lemma_pow_prime(a: nat, p: nat) -> (j: int)
    requires
        is_prime(p),
    ensures
        pow(a as int, p) == a + p * j,
    decreases a,
{
    if a == 0 {
        lemma_pow_adds(0, 1, (p - 1) as nat);
        lemma_pow1(0);
        assert(pow(0, p) == 0 * pow(0, (p - 1) as nat));
        0
    } else {
        let j0 = lemma_pow_prime((a - 1) as nat, p);
        let m = lemma_freshman((a - 1) as int, p);
        assert((a - 1) as int + 1 == a as int);
        assert(((a - 1) as nat) as int == (a - 1) as int);
        assert(p * j0 + p * m == p * (j0 + m)) by (nonlinear_arith);
        j0 + m
    }
}

/// Fermat's little theorem: `a^(p-1) mod p == 1` for a prime `p` and
/// `0 < a < p`.
pub proof fn lemma_fermat(a: nat, p: nat)
    requires
        is_prime(p),
        0 < a < p,
    ensures
        pow(a as int, (p - 1) as nat) % (p as int) == 1,
{
    let j = lemma_pow_prime(a, p);
    lemma_pow_adds(a as int, 1, (p - 1) as nat);
    lemma_pow1(a as int);
    lemma_pow_positive(a as int, (p - 1) as nat);
    let v = pow(a as int, (p - 1) as nat);
    let u = (v - 1) as nat;
    assert(a * u == p * j) by (nonlinear_arith)
        requires
            a * v == a + p * j,
            u == v - 1,
    ;
    assert(j >= 0) by (nonlinear_arith)
        requires
            a * u == p * j,
            p > 0,
            a > 0,
    ;
    lemma_mod_multiples_basic(j, p as int);
    assert((a * u) % p == 0) by {
        assert(j * p == p * j) by (nonlinear_arith);
    }
    lemma_euclid(p, a, u);
    lemma_fundamental_div_mod(u as int, p as int);
    lemma_fundamental_div_mod_converse(v, p as int, (u / p) as int, 1);
}

/// A power of a number that a prime does not divide is not divisible by it.
pub proof fn lemma_pow_not_divisible(g: nat, n: nat, p: nat)
    requires
        is_prime(p),
        0 < g < p,
    ensures
        pow(g as int, n) % (p as int) != 0,
    decreases n,
{
    if n == 0 {
        lemma_pow0(g as int);
        vstd::arithmetic::div_mod::lemma_small_mod(1, p);
    } else {
        lemma_pow_not_divisible(g, (n - 1) as nat, p);
        lemma_pow_adds(g as int, 1, (n - 1) as nat);
        lemma_pow1(g as int);
        lemma_pow_positive(g as int, (n - 1) as nat);
        let w = pow(g as int, (n - 1) as nat) as nat;
        assert(pow(g as int, n) == g * w);
        if pow(g as int, n) % (p as int) == 0 {
            assert((g * w) % p == 0);
            lemma_euclid(p, g, w);
            assert(false);
        }
    }
}

} // verus!
