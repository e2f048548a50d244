//! Sampling, primality testing and the searches behind key generation.
//!
//! Every function here that draws words from a [`Prng`] is stated exactly:
//! its result and the generator's state afterwards are those of a spec
//! function of the generator's state before the call.
use crate::bignat::{bit_len, gcd, BigNat};
use crate::prng::{advance, next_word, Prng, PrngState};
use vstd::arithmetic::power::{lemma_pow1, lemma_pow_adds, lemma_pow_multiplies, lemma_pow_positive, pow};
use vstd::prelude::*;

verus! {

/// Words drawn to make a number of `k` random bits.
pub open spec fn words_for(k: nat) -> nat {
    if k == 0 {
        0
    } else {
        ((k - 1) / 32 + 1) as nat
    }
}

/// The `k`-bit number drawn from state `st`: whole words, least significant
/// first, the last one shifted right to keep only its high bits.
pub open spec fn rand_bits(st: PrngState, k: nat) -> nat
    decreases k,
{
    if k == 0 {
        0
    } else if k <= 32 {
        (next_word(st) >> ((32 - k) as u32)) as nat
    } else {
        next_word(st) as nat + 0x1_0000_0000 * rand_bits(advance(st, 1), (k - 32) as nat)
    }
}

/// Rejection sampling of a number below `width`: draw `bit_len(width)` bits
/// until the draw is below `width`. `None` when the budget runs out first.
pub open spec fn sample_below(st: PrngState, width: nat) -> (Option<nat>, PrngState)
    decreases st.budget,
{
    let k = bit_len(width);
    if width == 0 || st.budget < words_for(k) {
        (None, st)
    } else {
        let v = rand_bits(st, k);
        let next = advance(st, words_for(k));
        if v < width {
            (Some(v), next)
        } else {
            sample_below(next, width)
        }
    }
}

/// A number drawn uniformly from the closed interval `[low, high]`.
pub open spec fn sample_range(st: PrngState, low: nat, high: nat) -> (Option<nat>, PrngState) {
    let r = sample_below(st, (high + 1 - low) as nat);
    (
        match r.0 {
            Some(v) => Some(low + v),
            None => None,
        },
        r.1,
    )
}

/// What a draw of [`sample_below`] gives: a value below `width`, and a
/// budget that never grows and shrinks on success.
pub proof fn lemma_sample_below_facts(st: PrngState, width: nat)
    ensures
        sample_below(st, width).1.seed == st.seed,
        sample_below(st, width).1.budget <= st.budget,
        sample_below(st, width).0 matches Some(v) ==> v < width && sample_below(st, width).1.budget
            < st.budget,
    decreases st.budget,
{
    let k = bit_len(width);
    if width == 0 || st.budget < words_for(k) {
    } else {
        let next = advance(st, words_for(k));
        if rand_bits(st, k) >= width {
            lemma_sample_below_facts(next, width);
        }
    }
}

/// The numbers held by an optional [`BigNat`].
pub open spec fn opt_view(r: Option<BigNat>) -> Option<nat> {
    match r {
        Some(v) => Some(v@),
        None => None,
    }
}

fn words_for_exec(k: u64) -> (r: u64)
    ensures
        r as nat == words_for(k as nat),
{
    if k == 0 {
        0
    } else {
        (k - 1) / 32 + 1
    }
}

/// A number of `k` random bits, drawn from `rng`.
fn getrandbits(rng: &mut Prng, k: u64) -> (r: BigNat)
    requires
        old(rng)@.budget >= words_for(k as nat),
    ensures
        r@ == rand_bits(old(rng)@, k as nat),
        final(rng)@ == advance(old(rng)@, words_for(k as nat)),
    decreases k,
{
    if k == 0 {
        return BigNat::from_u32(0);
    }
    let w = rng.next_u32();
    if k <= 32 {
        BigNat::from_u32(w >> ((32 - k) as u32))
    } else {
        let rest = getrandbits(rng, k - 32);
        assert(words_for(k as nat) == 1 + words_for((k - 32) as nat));
        BigNat::prepend_limb(w, &rest)
    }
}

/// A number drawn uniformly from the closed interval `[start, stop]`, by
/// rejection sampling; `None` when the budget of `rng` runs out first.
pub fn gen_bigint_range(rng: &mut Prng, start: &BigNat, stop: &BigNat) -> (r: Option<BigNat>)
    requires
        start@ <= stop@,
    ensures
        opt_view(r) == sample_range(old(rng)@, start@, stop@).0,
        final(rng)@ == sample_range(old(rng)@, start@, stop@).1,
{
    let one = BigNat::from_u32(1);
    let width = stop.add(&one).sub(start);
    let k = width.bits();
    let ghost st0 = rng@;
    loop
        invariant
            width@ == stop@ + 1 - start@,
            width@ >= 1,
            st0 == old(rng)@,
            k as nat == bit_len(width@),
            sample_below(rng@, width@) == sample_below(st0, width@),
        decreases rng@.budget,
    {
        let need = words_for_exec(k);
        if rng.budget() < need {
            assert(sample_below(rng@, width@) == (None::<nat>, rng@));
            return None;
        }
        let ghost before = rng@;
        let v = getrandbits(rng, k);
        if v.lt(&width) {
            assert(sample_below(before, width@) == (Some(v@), rng@));
            return Some(start.add(&v));
        }
        assert(sample_below(before, width@) == sample_below(rng@, width@));
    }
}

/// The inputs on which the Jacobi recursion below comes to an end: it would
/// call itself forever on an odd `a == n` above one.
pub open spec fn jacobi_terminates(a: nat, n: nat) -> bool {
    n >= 1 && (a != n || a % 2 == 0 || a <= 1)
}

/// The Jacobi symbol `J(a, n)` as this system defines it: the base cases
/// `0`, `1` and `2`, then reduction modulo `n`, halving, and reciprocity.
/// Outside [`jacobi_terminates`] its value is zero by convention.
pub open spec fn jacobi_spec(a: nat, n: nat) -> int
    decreases a + n, (if a <= n { 1int } else { 0int }),
{
    if a == 0 {
        if n == 1 {
            1
        } else {
            0
        }
    } else if a == 1 {
        1
    } else if a == 2 {
        if n % 8 == 1 || n % 8 == 7 {
            1
        } else if n % 8 == 3 || n % 8 == 5 {
            -1
        } else {
            0
        }
    } else if n == 0 {
        0
    } else if a > n {
        jacobi_spec(a % n, n)
    } else if a % 2 == 0 {
        jacobi_spec(2, n) * jacobi_spec(a / 2, n)
    } else if a == n {
        0
    } else if a % 4 == 3 && n % 4 == 3 {
        -jacobi_spec(n, a)
    } else {
        jacobi_spec(n, a)
    }
}

/// Computes the Jacobi symbol `J(a, n)`.
pub fn jacobi(a: &BigNat, n: &BigNat) -> (r: i8)
    requires
        jacobi_terminates(a@, n@),
    ensures
        r as int == jacobi_spec(a@, n@),
        -1 <= r <= 1,
    decreases a@ + n@, (if a@ <= n@ { 1int } else { 0int }), 1int,
{
    let zero = BigNat::from_u32(0);
    let one = BigNat::from_u32(1);
    let two = BigNat::from_u32(2);
    if a.eq(&zero) {
        if n.eq(&one) {
            1
        } else {
            0
        }
    } else if a.eq(&one) {
        1
    } else if a.eq(&two) {
        let m = n.mod_floor(&BigNat::from_u32(8)).low_u32();
        if m == 1 || m == 7 {
            1
        } else if m == 3 || m == 5 {
            -1
        } else {
            0
        }
    } else {
        jacobi_match_else(a, n)
    }
}

/// The recursive cases of [`jacobi`], for `a` above two.
fn jacobi_match_else(a: &BigNat, n: &BigNat) -> (r: i8)
    requires
        jacobi_terminates(a@, n@),
        a@ > 2,
    ensures
        r as int == jacobi_spec(a@, n@),
        -1 <= r <= 1,
    decreases a@ + n@, (if a@ <= n@ { 1int } else { 0int }), 0int,
{
    let two = BigNat::from_u32(2);
    let four = BigNat::from_u32(4);
    if n.lt(a) {
        let t = a.mod_floor(n);
        jacobi(&t, n)
    } else if a.mod_floor(&two).low_u32() == 0 {
        let half = a.div(&two);
        let x = jacobi(&two, n);
        let y = jacobi(&half, n);
        assert(-1 <= x * y <= 1) by (nonlinear_arith)
            requires
                -1 <= x <= 1,
                -1 <= y <= 1,
        ;
        x * y
    } else if a.mod_floor(&four).low_u32() == 3 && n.mod_floor(&four).low_u32() == 3 {
        -jacobi(n, a)
    } else {
        jacobi(n, a)
    }
}

/// One round of the Solovay-Strassen test with witness `a` passes: `a` is
/// prime to `n`, and `J(a, n) mod n` equals `a^((n-1)/2) mod n`.
pub open spec fn euler_round_passes(a: nat, n: nat) -> bool {
    &&& gcd(a, n) <= 1
    &&& jacobi_spec(a, n) % (n as int) == pow(a as int, ((n - 1) / 2) as nat) % (n as int)
}

/// `rounds` rounds of the Solovay-Strassen test of `n`, each with a witness
/// drawn from `[1, n-2]`: `Some(false)` at the first round that fails,
/// `Some(true)` when all pass, `None` when the budget runs out first.
pub open spec fn solovay_strassen_spec(st: PrngState, n: nat, rounds: nat) -> (
    Option<bool>,
    PrngState,
)
    decreases rounds,
{
    if rounds == 0 {
        (Some(true), st)
    } else {
        let d = sample_range(st, 1, (n - 2) as nat);
        match d.0 {
            None => (None, d.1),
            Some(a) => if euler_round_passes(a, n) {
                solovay_strassen_spec(d.1, n, (rounds - 1) as nat)
            } else {
                (Some(false), d.1)
            },
        }
    }
}

/// The Solovay-Strassen probabilistic primality test of `num`, with
/// `i_confidence` rounds. A composite verdict is never wrong; a prime verdict
/// is wrong with probability at most `4^-i_confidence`.
pub fn solovay_strassen(num: &BigNat, i_confidence: u32, r: &mut Prng) -> (res: Option<bool>)
    requires
        num@ >= 3,
    ensures
        res == solovay_strassen_spec(old(r)@, num@, i_confidence as nat).0,
        final(r)@ == solovay_strassen_spec(old(r)@, num@, i_confidence as nat).1,
{
    let one = BigNat::from_u32(1);
    let two = BigNat::from_u32(2);
    let high = num.sub(&two);
    let mi = num.sub(&one).div(&two);
    let ghost st0 = r@;
    let mut idx: u32 = 0;
    while idx < i_confidence
        invariant
            idx <= i_confidence,
            num@ >= 3,
            high@ == num@ - 2,
            mi@ == (num@ - 1) / 2,
            one@ == 1,
            st0 == old(r)@,
            solovay_strassen_spec(r@, num@, (i_confidence - idx) as nat)
                == solovay_strassen_spec(st0, num@, i_confidence as nat),
        decreases i_confidence - idx,
    {
        let ghost before = r@;
        let a = match gen_bigint_range(r, &one, &high) {
            None => {
                return None;
            },
            Some(a) => a,
        };
        proof {
            lemma_sample_below_facts(before, (num@ - 2) as nat);
        }
        if one.lt(&a.gcd(num)) {
            return Some(false);
        }
        let j = jacobi(&a, num);
        let jr = if j < 0 {
            num.sub(&one)
        } else {
            BigNat::from_u32(j as u32)
        };
        assert(jr@ == jacobi_spec(a@, num@) % (num@ as int)) by {
            let nn = num@ as int;
            if j < 0 {
                assert(j == -1);
                assert((-1int) % nn == nn - 1) by (nonlinear_arith)
                    requires
                        nn >= 3,
                ;
            } else {
                assert(0 <= j <= 1);
                assert((j as int) % nn == j as int) by (nonlinear_arith)
                    requires
                        nn >= 3,
                        0 <= j <= 1,
                ;
            }
        }
        let pow_res = a.modpow(&mi, num);
        if !jr.eq(&pow_res) {
            return Some(false);
        }
        idx = idx + 1;
    }
    Some(true)
}

/// The interval from which prime candidates of `bit_length` bits are drawn:
/// `[2^(bit_length-2), 2^(bit_length-1))`, closed above as `2^(bit_length-1) - 1`.
pub open spec fn candidate_low(bit_length: nat) -> nat {
    pow(2, (bit_length - 2) as nat) as nat
}

pub open spec fn candidate_high(bit_length: nat) -> nat {
    (pow(2, (bit_length - 1) as nat) - 1) as nat
}

/// What [`solovay_strassen_spec`] leaves of the generator: the same seed, and
/// no more budget than before.
pub proof fn lemma_solovay_strassen_budget(st: PrngState, n: nat, rounds: nat)
    ensures
        solovay_strassen_spec(st, n, rounds).1.seed == st.seed,
        solovay_strassen_spec(st, n, rounds).1.budget <= st.budget,
    decreases rounds,
{
    if rounds > 0 {
        lemma_sample_below_facts(st, (((n - 2) as nat) + 1 - 1) as nat);
        let d = sample_range(st, 1, (n - 2) as nat);
        lemma_solovay_strassen_budget(d.1, n, (rounds - 1) as nat);
    }
}

/// The search for a safe prime `p = 2q + 1` of about `bit_length` bits: draw
/// candidates `q` until one is odd and passes the test, then test `2q + 1`;
/// start over when that fails. `None` when the budget runs out first. (A draw
/// always spends budget, so the arms that stop on an unspent budget never apply.)
pub open spec fn safe_prime_search(st: PrngState, bit_length: nat, conf: nat) -> (
    Option<nat>,
    PrngState,
)
    decreases st.budget,
{
    let d = sample_range(st, candidate_low(bit_length), candidate_high(bit_length));
    match d.0 {
        None => (None, d.1),
        Some(q) => if d.1.budget >= st.budget {
            (None, d.1)
        } else if q % 2 == 0 {
            safe_prime_search(d.1, bit_length, conf)
        } else {
            let t = solovay_strassen_spec(d.1, q, conf);
            match t.0 {
                None => (None, t.1),
                Some(false) => if t.1.budget < st.budget {
                    safe_prime_search(t.1, bit_length, conf)
                } else {
                    (None, t.1)
                },
                Some(true) => {
                    let u = solovay_strassen_spec(t.1, 2 * q + 1, conf);
                    match u.0 {
                        None => (None, u.1),
                        Some(true) => (Some(2 * q + 1), u.1),
                        Some(false) => if u.1.budget < st.budget {
                            safe_prime_search(u.1, bit_length, conf)
                        } else {
                            (None, u.1)
                        },
                    }
                },
            }
        },
    }
}

/// Draws a prime candidate of `bit_length` bits.
fn gen_prime(bit_length: &u32, r: &mut Prng) -> (res: Option<BigNat>)
    requires
        *bit_length >= 2,
    ensures
        opt_view(res) == sample_range(
            old(r)@,
            candidate_low(*bit_length as nat),
            candidate_high(*bit_length as nat),
        ).0,
        final(r)@ == sample_range(
            old(r)@,
            candidate_low(*bit_length as nat),
            candidate_high(*bit_length as nat),
        ).1,
{
    let base = BigNat::from_u32(2);
    let low = base.pow(*bit_length - 2);
    let top = base.pow(*bit_length - 1);
    proof {
        lemma_pow_positive(2, (*bit_length - 2) as nat);
        lemma_pow_adds(2, (*bit_length - 2) as nat, 1);
        lemma_pow1(2);
    }
    let high = top.sub(&BigNat::from_u32(1));
    gen_bigint_range(r, &low, &high)
}

/// Finds a safe prime `p`, one such that `(p-1)/2` is prime too, whose half
/// has `bit_length - 1` bits; each candidate is tested with `i_confidence`
/// rounds of [`solovay_strassen`]. `None` when the budget of `r` runs out first.
pub fn random_prime_bigint(bit_length: u32, i_confidence: u32, r: &mut Prng) -> (res: Option<
    BigNat,
>)
    requires
        bit_length >= 3,
    ensures
        opt_view(res) == safe_prime_search(old(r)@, bit_length as nat, i_confidence as nat).0,
        final(r)@ == safe_prime_search(old(r)@, bit_length as nat, i_confidence as nat).1,
{
    let one = BigNat::from_u32(1);
    let two = BigNat::from_u32(2);
    let ghost bl = bit_length as nat;
    let ghost conf = i_confidence as nat;
    let ghost st0 = r@;
    loop
        invariant
            bit_length >= 3,
            one@ == 1,
            two@ == 2,
            st0 == old(r)@,
            bl == bit_length as nat,
            conf == i_confidence as nat,
            safe_prime_search(r@, bl, conf) == safe_prime_search(st0, bl, conf),
        decreases r@.budget,
    {
        let ghost before = r@;
        proof {
            lemma_sample_below_facts(before, (candidate_high(bl) + 1 - candidate_low(bl)) as nat);
            lemma_pow_positive(2, (bl - 3) as nat);
            lemma_pow_adds(2, (bl - 3) as nat, 1);
            lemma_pow1(2);
        }
        let q = match gen_prime(&bit_length, r) {
            None => {
                return None;
            },
            Some(q) => q,
        };
        if q.mod_floor(&two).low_u32() == 0 {
            continue ;
        }
        assert(q@ >= 3);
        let ghost mid = r@;
        proof {
            lemma_solovay_strassen_budget(mid, q@, conf);
        }
        match solovay_strassen(&q, i_confidence, r) {
            None => {
                return None;
            },
            Some(false) => {
                continue ;
            },
            Some(true) => {},
        }
        let p = q.mul(&two).add(&one);
        let ghost mid2 = r@;
        proof {
            lemma_solovay_strassen_budget(mid2, p@, conf);
        }
        match solovay_strassen(&p, i_confidence, r) {
            None => {
                return None;
            },
            Some(true) => {
                return Some(p);
            },
            Some(false) => {},
        }
    }
}

/// `g` passes the primitive-root check for the safe prime `p`: with
/// `half = (p-1)/2` and `quot = (p-1)/half`, neither `g^half` nor `g^quot` is one mod `p`.
pub open spec fn is_primitive_root_candidate(g: nat, p: nat) -> bool {
    let half = ((p - 1) / 2) as nat;
    let quot = ((p - 1) / (half as int)) as nat;
    &&& pow(g as int, half) % (p as int) != 1
    &&& pow(g as int, quot) % (p as int) != 1
}

/// The search for a primitive root of `p`: one for `p == 2`, else draws
/// from `[2, p-1]` until one passes [`is_primitive_root_candidate`].
pub open spec fn primitive_root_search(st: PrngState, p: nat) -> (Option<nat>, PrngState)
    decreases st.budget,
{
    if p == 2 {
        (Some(1), st)
    } else {
        let d = sample_range(st, 2, (p - 1) as nat);
        match d.0 {
            None => (None, d.1),
            Some(g) => if is_primitive_root_candidate(g, p) {
                (Some(g), d.1)
            } else if d.1.budget < st.budget {
                primitive_root_search(d.1, p)
            } else {
                (None, d.1)
            },
        }
    }
}

/// Finds a primitive root of the safe prime `p`. `None` when the budget of
/// `r` runs out first.
pub fn find_primitive_root_bigint(p: &BigNat, r: &mut Prng) -> (res: Option<BigNat>)
    requires
        p@ >= 2,
    ensures
        opt_view(res) == primitive_root_search(old(r)@, p@).0,
        final(r)@ == primitive_root_search(old(r)@, p@).1,
{
    let one = BigNat::from_u32(1);
    let two = BigNat::from_u32(2);
    if p.eq(&two) {
        return Some(one);
    }
    let half = p.sub(&one).div(&two);
    let quot = p.sub(&one).div(&half);
    let high = p.sub(&one);
    let ghost st0 = r@;
    loop
        invariant
            p@ >= 3,
            one@ == 1,
            two@ == 2,
            high@ == p@ - 1,
            half@ == (p@ - 1) / 2,
            quot@ == (p@ - 1) / (half@ as int),
            st0 == old(r)@,
            primitive_root_search(r@, p@) == primitive_root_search(st0, p@),
        decreases r@.budget,
    {
        let ghost before = r@;
        proof {
            lemma_sample_below_facts(before, (p@ - 1 + 1 - 2) as nat);
        }
        let g = match gen_bigint_range(r, &two, &high) {
            None => {
                return None;
            },
            Some(g) => g,
        };
        if !g.modpow(&half, p).eq(&one) {
            if !g.modpow(&quot, p).eq(&one) {
                return Some(g);
            }
        }
    }
}

/// Draws the value `h` of a public key: uniform in `[1, p-1]`.
pub fn find_h_bigint(p: &BigNat, r: &mut Prng) -> (res: Option<BigNat>)
    requires
        p@ >= 2,
    ensures
        opt_view(res) == sample_range(old(r)@, 1, (p@ - 1) as nat).0,
        final(r)@ == sample_range(old(r)@, 1, (p@ - 1) as nat).1,
{
    let one = BigNat::from_u32(1);
    let high = p.sub(&one);
    gen_bigint_range(r, &one, &high)
}

/// `base` to the power `exponent`, by repeated squaring.
pub fn pow_bigint(base: &BigNat, exponent: &BigNat) -> (r: BigNat)
    ensures
        r@ == pow(base@ as int, exponent@),
{
    let zero = BigNat::from_u32(0);
    let one = BigNat::from_u32(1);
    let two = BigNat::from_u32(2);
    let mut result = BigNat::from_u32(1);
    let mut e = exponent.copy();
    let mut b = base.copy();
    while zero.lt(&e)
        invariant
            zero@ == 0,
            one@ == 1,
            two@ == 2,
            result@ * pow(b@ as int, e@) == pow(base@ as int, exponent@),
        decreases e@,
    {
        let ghost e0 = e@;
        let ghost b0 = b@;
        let ghost r0 = result@;
        if e.mod_floor(&two).eq(&one) {
            result = result.mul(&b);
        }
        e = e.div(&two);
        b = b.mul(&b);
        proof {
            let h = e0 / 2;
            lemma_pow_multiplies(b0 as int, 2, h);
            vstd::arithmetic::power::lemma_square_is_pow2(b0 as int);
            assert(pow(b0 as int, 2 * h) == pow(b@ as int, e@));
            if e0 % 2 == 1 {
                lemma_pow_adds(b0 as int, 2 * h, 1);
                lemma_pow1(b0 as int);
                assert(pow(b0 as int, e0) == pow(b0 as int, 2 * h) * b0);
                assert(r0 * pow(b0 as int, e0) == (r0 * b0) * pow(b@ as int, e@)) by (
                nonlinear_arith)
                    requires
                        pow(b0 as int, e0) == pow(b0 as int, 2 * h) * b0,
                        pow(b0 as int, 2 * h) == pow(b@ as int, e@),
                ;
            } else {
                assert(e0 == 2 * h);
            }
        }
    }
    proof {
        assert(e@ == 0);
        reveal_with_fuel(pow, 1);
    }
    result
}

} // verus!
