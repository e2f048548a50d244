//! Key generation, the key ratchet, and the fixed-width key form.
use crate::bignat::{limbs_value, u32_digits, BigNat};
use crate::generic::{is_key_pair, PrivateKey, PublicKey, RawKey, RawPublicKey, Seed};
use crate::prng::{Prng, PrngState};
use crate::utils::{
    find_h_bigint, find_primitive_root_bigint, gen_bigint_range, is_primitive_root_candidate,
    lemma_sample_below_facts, lemma_solovay_strassen_budget, primitive_root_search,
    random_prime_bigint, safe_prime_search, sample_range, solovay_strassen_spec, candidate_high,
    candidate_low,
};
use vstd::arithmetic::power::{lemma_pow1, lemma_pow_adds, lemma_pow_positive, pow};
use vstd::prelude::*;

verus! {

/// A generated public key, with the generator that drew its `h`.
pub type KeyWithRng = (PublicKey, Prng);

/// A fresh generator state: seeded with `seed`, nothing drawn yet.
pub open spec fn fresh(seed: Seq<u32>, budget: nat) -> PrngState {
    PrngState { seed, pos: 0, budget }
}

/// Key generation from `seed`: `p` by the safe-prime search, `g` by the
/// primitive-root search and `h` uniform in `[1, p-1]`, each from its own
/// generator freshly seeded with `seed`. Gives `(p, g, h)` and the state of
/// the third generator.
pub open spec fn keygen_spec(seed: Seq<u32>, bit_length: nat, conf: nat, budget: nat) -> Option<
    (nat, nat, nat, PrngState),
> {
    let st = fresh(seed, budget);
    let a = safe_prime_search(st, bit_length, conf);
    match a.0 {
        None => None,
        Some(p) => {
            let b = primitive_root_search(st, p);
            match b.0 {
                None => None,
                Some(g) => {
                    let c = sample_range(st, 1, (p - 1) as nat);
                    match c.0 {
                        None => None,
                        Some(h) => Some((p, g, h, c.1)),
                    }
                },
            }
        },
    }
}

/// Key-pair generation from `seed`: `p` and `g` as in [`keygen_spec`], and
/// the secret exponent `x` uniform in `[1, p-2]` from a third fresh generator.
/// Gives `(p, g, x)`.
pub open spec fn key_pair_spec(seed: Seq<u32>, bit_length: nat, conf: nat, budget: nat) -> Option<
    (nat, nat, nat),
> {
    let st = fresh(seed, budget);
    let a = safe_prime_search(st, bit_length, conf);
    match a.0 {
        None => None,
        Some(p) => {
            let b = primitive_root_search(st, p);
            match b.0 {
                None => None,
                Some(g) => {
                    let c = sample_range(st, 1, (p - 2) as nat);
                    match c.0 {
                        None => None,
                        Some(x) => Some((p, g, x)),
                    }
                },
            }
        },
    }
}

/// Prime candidates of at least three bits are at least two.
pub proof fn lemma_candidate_bounds(bit_length: nat)
    requires
        bit_length >= 3,
    ensures
        2 <= candidate_low(bit_length) <= candidate_high(bit_length),
{
    lemma_pow_positive(2, (bit_length - 3) as nat);
    lemma_pow_adds(2, (bit_length - 3) as nat, 1);
    lemma_pow_adds(2, (bit_length - 2) as nat, 1);
    lemma_pow1(2);
}

/// A safe prime found by [`safe_prime_search`] is odd, at least seven, and
/// both it and its half `(p-1)/2` passed the Solovay-Strassen test.
pub proof fn lemma_safe_prime_found(st: PrngState, bit_length: nat, conf: nat)
    requires
        bit_length >= 3,
    ensures
        safe_prime_search(st, bit_length, conf).0 matches Some(p) ==> {
            &&& p >= 7
            &&& p % 2 == 1
            &&& exists|a: PrngState| #[trigger]
                solovay_strassen_spec(a, ((p - 1) / 2) as nat, conf).0 == Some(true)
            &&& exists|b: PrngState| #[trigger]
                solovay_strassen_spec(b, p, conf).0 == Some(true)
        },
    decreases st.budget,
{
    let low = candidate_low(bit_length);
    let high = candidate_high(bit_length);
    lemma_candidate_bounds(bit_length);
    lemma_sample_below_facts(st, (high + 1 - low) as nat);
    let d = sample_range(st, low, high);
    if let Some(q) = d.0 {
        if d.1.budget < st.budget {
            if q % 2 == 0 {
                lemma_safe_prime_found(d.1, bit_length, conf);
                assert(safe_prime_search(st, bit_length, conf) == safe_prime_search(
                    d.1,
                    bit_length,
                    conf,
                ));
            } else {
                let t = solovay_strassen_spec(d.1, q, conf);
                lemma_solovay_strassen_budget(d.1, q, conf);
                if t.0 == Some(false) {
                    lemma_safe_prime_found(t.1, bit_length, conf);
                    assert(safe_prime_search(st, bit_length, conf) == safe_prime_search(
                        t.1,
                        bit_length,
                        conf,
                    ));
                } else if t.0 == Some(true) {
                    let u = solovay_strassen_spec(t.1, 2 * q + 1, conf);
                    lemma_solovay_strassen_budget(t.1, 2 * q + 1, conf);
                    if u.0 == Some(false) {
                        lemma_safe_prime_found(u.1, bit_length, conf);
                        assert(safe_prime_search(st, bit_length, conf) == safe_prime_search(
                            u.1,
                            bit_length,
                            conf,
                        ));
                    } else if u.0 == Some(true) {
                        assert(safe_prime_search(st, bit_length, conf).0 == Some(2 * q + 1));
                        assert(q >= low);
                        assert(q >= 3);
                        assert(((2 * q + 1 - 1) / 2) as nat == q);
                        assert(solovay_strassen_spec(d.1, ((2 * q + 1 - 1) / 2) as nat, conf).0
                            == Some(true));
                        assert(solovay_strassen_spec(t.1, 2 * q + 1, conf).0 == Some(true));
                    }
                }
            }
        }
    }
}

/// A root found by [`primitive_root_search`] for `p >= 3` lies in
/// `[2, p-1]` and passes the primitive-root check.
pub proof fn lemma_primitive_root_found(st: PrngState, p: nat)
    requires
        p >= 3,
    ensures
        primitive_root_search(st, p).0 matches Some(g) ==> 2 <= g <= p - 1
            && is_primitive_root_candidate(g, p),
    decreases st.budget,
{
    lemma_sample_below_facts(st, (p - 1 + 1 - 2) as nat);
    let d = sample_range(st, 2, (p - 1) as nat);
    if let Some(g) = d.0 {
        if !is_primitive_root_candidate(g, p) && d.1.budget < st.budget {
            lemma_primitive_root_found(d.1, p);
        }
    }
}

/// Generates a public key from `seed`: a safe prime `p` of `bit_length`
/// bits, tested with `i_confidence` rounds, a primitive root `g` and a
/// random `h` in `[1, p-1]`. Each is drawn by its own generator seeded with
/// `seed` that may draw at most `budget` words; the third one is returned
/// with the key. `None` when a budget runs out.
pub fn generate_pub_key(seed: &[u32], bit_length: u32, i_confidence: u32, budget: u64) -> (r:
    Option<KeyWithRng>)
    requires
        seed@.len() > 0,
        bit_length >= 3,
    ensures
        match r {
            Some(kr) => keygen_spec(seed@, bit_length as nat, i_confidence as nat, budget as nat)
                == Some((kr.0.p@, kr.0.g@, kr.0.h@, kr.1@)) && kr.0.bit_length == bit_length
                && is_generated_key(
                kr.0,
                seed@,
                bit_length as nat,
                i_confidence as nat,
                budget as nat,
            ),
            None => keygen_spec(seed@, bit_length as nat, i_confidence as nat, budget as nat) is None,
        },
{
    let ghost st = fresh(seed@, budget as nat);
    let mut rng = Prng::with_budget(seed, budget);
    let p = match random_prime_bigint(bit_length, i_confidence, &mut rng) {
        None => {
            return None;
        },
        Some(p) => p,
    };
    proof {
        lemma_safe_prime_found(st, bit_length as nat, i_confidence as nat);
    }
    let mut rng = Prng::with_budget(seed, budget);
    let g = match find_primitive_root_bigint(&p, &mut rng) {
        None => {
            return None;
        },
        Some(g) => g,
    };
    let mut rng = Prng::with_budget(seed, budget);
    let h = match find_h_bigint(&p, &mut rng) {
        None => {
            return None;
        },
        Some(h) => h,
    };
    Some((PublicKey { p, g, h, bit_length }, rng))
}

/// Generates a matching public and private key from `seed`: `p` and `g` as
/// [`generate_pub_key`] draws them, a secret `x` in `[1, p-2]` from a third
/// generator seeded with `seed`, and `h = g^x mod p`. `None` when a budget
/// runs out.
pub fn generate_key_pair(seed: &[u32], bit_length: u32, i_confidence: u32, budget: u64) -> (r:
    Option<(PublicKey, PrivateKey)>)
    requires
        seed@.len() > 0,
        bit_length >= 3,
    ensures
        match r {
            Some(kp) => {
                &&& key_pair_spec(seed@, bit_length as nat, i_confidence as nat, budget as nat)
                    == Some((kp.1.p@, kp.1.g@, kp.1.x@))
                &&& kp.0.p@ == kp.1.p@
                &&& kp.0.g@ == kp.1.g@
                &&& kp.0.h@ == pow(kp.1.g@ as int, kp.1.x@) % (kp.1.p@ as int)
                &&& kp.0.bit_length == bit_length
                &&& kp.1.bit_length == bit_length
                &&& is_key_pair(kp.0, kp.1)
            },
            None => key_pair_spec(seed@, bit_length as nat, i_confidence as nat, budget as nat)
                is None,
        },
{
    let ghost st = fresh(seed@, budget as nat);
    let mut rng = Prng::with_budget(seed, budget);
    let p = match random_prime_bigint(bit_length, i_confidence, &mut rng) {
        None => {
            return None;
        },
        Some(p) => p,
    };
    proof {
        lemma_safe_prime_found(st, bit_length as nat, i_confidence as nat);
    }
    let mut rng = Prng::with_budget(seed, budget);
    let g = match find_primitive_root_bigint(&p, &mut rng) {
        None => {
            return None;
        },
        Some(g) => g,
    };
    proof {
        lemma_primitive_root_found(st, p@);
        lemma_sample_below_facts(st, (p@ - 2 + 1 - 1) as nat);
    }
    let mut rng = Prng::with_budget(seed, budget);
    let one = BigNat::from_u32(1);
    let high = p.sub(&BigNat::from_u32(2));
    let x = match gen_bigint_range(&mut rng, &one, &high) {
        None => {
            return None;
        },
        Some(x) => x,
    };
    let h = g.modpow(&x, &p);
    let public = PublicKey { p: p.copy(), g: g.copy(), h, bit_length };
    Some((public, PrivateKey { p, g, x, bit_length }))
}

impl Seed for PublicKey {
    /// The limbs of `p + g + h`, least significant first, with no zero limb
    /// at the top.
    fn yield_seed_slice(&self) -> (r: Vec<u32>)
        ensures
            r@ == u32_digits(self.p@ + self.g@ + self.h@),
    {
        let sum = self.p.add(&self.h).add(&self.g);
        sum.to_u32_digits()
    }
}

impl RawKey for PublicKey {
    /// The fixed-width form; `None` when one of `p`, `g`, `h` needs more
    /// than 256 bits.
    fn to_raw(self) -> (r: Option<RawPublicKey>)
        ensures
            r is Some <==> self.p@ < pow(0x1_0000_0000, 8) && self.g@ < pow(0x1_0000_0000, 8)
                && self.h@ < pow(0x1_0000_0000, 8),
            r matches Some(k) ==> limbs_value(k.p@) == self.p@ && limbs_value(k.g@) == self.g@
                && limbs_value(k.h@) == self.h@ && k.bit_length == self.bit_length,
    {
        let p = self.p.to_fixed();
        let g = self.g.to_fixed();
        let h = self.h.to_fixed();
        match (p, g, h) {
            (Some(p), Some(g), Some(h)) => Some(
                RawPublicKey { p, g, h, bit_length: self.bit_length },
            ),
            _ => None,
        }
    }

    fn from_raw(raw_key: RawPublicKey) -> (r: Self)
        ensures
            r.p@ == limbs_value(raw_key.p@),
            r.g@ == limbs_value(raw_key.g@),
            r.h@ == limbs_value(raw_key.h@),
            r.bit_length == raw_key.bit_length,
    {
        PublicKey {
            p: BigNat::from_fixed(&raw_key.p),
            g: BigNat::from_fixed(&raw_key.g),
            h: BigNat::from_fixed(&raw_key.h),
            bit_length: raw_key.bit_length,
        }
    }
}

/// `k` is a key that [`generate_pub_key`] gives for these inputs.
pub open spec fn is_generated_key(
    k: PublicKey,
    seed: Seq<u32>,
    bit_length: nat,
    conf: nat,
    budget: nat,
) -> bool {
    keygen_spec(seed, bit_length, conf, budget) matches Some(t) && t.0 == k.p@ && t.1 == k.g@ && t.2
        == k.h@ && k.bit_length == bit_length
}

/// Key generation is deterministic: two keys generated from the same seed,
/// bit length, confidence and budget have the same `p`, `g` and `h`.
pub proof fn lemma_generation_deterministic(
    seed: Seq<u32>,
    bit_length: nat,
    conf: nat,
    budget: nat,
    a: PublicKey,
    b: PublicKey,
)
    requires
        is_generated_key(a, seed, bit_length, conf, budget),
        is_generated_key(b, seed, bit_length, conf, budget),
    ensures
        a.p@ == b.p@ && a.g@ == b.g@ && a.h@ == b.h@,
{
}

/// Every generated key has a valid primitive root: with `half = (p-1)/2` and
/// `quot = (p-1)/half`, neither `g^half` nor `g^quot` nor `g^((p-1)/quot)` is one
/// modulo `p`.
pub proof fn lemma_generated_root_valid(seed: Seq<u32>, bit_length: nat, conf: nat, budget: nat)
    requires
        bit_length >= 3,
    ensures
        keygen_spec(seed, bit_length, conf, budget) matches Some(k) ==> {
            let p = k.0;
            let g = k.1;
            let half = ((p - 1) / 2) as nat;
            let quot = ((p - 1) / (half as int)) as nat;
            &&& pow(g as int, half) % (p as int) != 1
            &&& pow(g as int, quot) % (p as int) != 1
            &&& pow(g as int, ((p - 1) / (quot as int)) as nat) % (p as int) != 1
        },
{
    let st = fresh(seed, budget);
    lemma_safe_prime_found(st, bit_length, conf);
    if let Some(p) = safe_prime_search(st, bit_length, conf).0 {
        lemma_primitive_root_found(st, p);
        let half = ((p - 1) / 2) as nat;
        assert(p - 1 == 2 * half);
        assert((p - 1) / (half as int) == 2) by {
            vstd::arithmetic::div_mod::lemma_fundamental_div_mod_converse(
                (p - 1) as int,
                half as int,
                2,
                0,
            );
        }
        assert((p - 1) / 2 == half);
    }
}

/// Every generated `p` is a safe prime as far as the test can tell: both
/// `(p-1)/2` and `p` passed the Solovay-Strassen test.
pub proof fn lemma_generated_prime_is_safe(seed: Seq<u32>, bit_length: nat, conf: nat, budget: nat)
    requires
        bit_length >= 3,
    ensures
        keygen_spec(seed, bit_length, conf, budget) matches Some(k) ==> {
            &&& exists|a: PrngState| #[trigger]
                solovay_strassen_spec(a, ((k.0 - 1) / 2) as nat, conf).0 == Some(true)
            &&& exists|b: PrngState| #[trigger] solovay_strassen_spec(b, k.0, conf).0 == Some(true)
        },
{
    let st = fresh(seed, budget);
    lemma_safe_prime_found(st, bit_length, conf);
    if let Some(k) = keygen_spec(seed, bit_length, conf, budget) {
        assert(safe_prime_search(st, bit_length, conf).0 == Some(k.0));
    }
}

} // verus!
