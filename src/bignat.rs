//! Arbitrary-precision natural numbers.
//!
//! A [`BigNat`] holds its value as base-2^32 limbs, least significant first;
//! its view is the natural number those limbs denote. The arithmetic itself
//! is carried out by `num_bigint::BigUint`: each operation below converts
//! the limbs to a `BigUint`, makes one call, and converts the result back.
use num_bigint::BigUint;
use num_integer::Integer;
use num_traits::Num;
use vstd::arithmetic::power::pow;
use vstd::prelude::*;

verus! {

/// The number denoted by little-endian base-2^32 limbs.
pub open spec fn limbs_value(s: Seq<u32>) -> nat
    decreases s.len(),
{
    if s.len() == 0 {
        0
    } else {
        s[0] as nat + 0x1_0000_0000 * limbs_value(s.drop_first())
    }
}

/// Limbs concatenated: the second part counts `2^32` to the power of the
/// length of the first.
pub proof fn lemma_limbs_concat(a: Seq<u32>, b: Seq<u32>)
    ensures
        limbs_value(a + b) == limbs_value(a) + pow(0x1_0000_0000, a.len()) * limbs_value(b),
    decreases a.len(),
{
    if a.len() == 0 {
        assert(a + b =~= b);
        reveal_with_fuel(pow, 1);
    } else {
        let rest = a.drop_first();
        assert((a + b).drop_first() =~= rest + b);
        lemma_limbs_concat(rest, b);
        let x = limbs_value(rest);
        let y = limbs_value(b);
        let q = pow(0x1_0000_0000, rest.len());
        vstd::arithmetic::power::lemma_pow_adds(0x1_0000_0000, 1, rest.len());
        vstd::arithmetic::power::lemma_pow1(0x1_0000_0000);
        assert(pow(0x1_0000_0000, a.len()) == 0x1_0000_0000 * q);
        assert(0x1_0000_0000 * (x + q * y) == 0x1_0000_0000 * x + (0x1_0000_0000 * q) * y)
            by (nonlinear_arith);
    }
}

/// Limbs are worth less than `2^32` to the power of their number.
pub proof fn lemma_limbs_bound(a: Seq<u32>)
    ensures
        limbs_value(a) < pow(0x1_0000_0000, a.len()),
    decreases a.len(),
{
    reveal_with_fuel(pow, 1);
    if a.len() > 0 {
        let rest = a.drop_first();
        lemma_limbs_bound(rest);
        let x = limbs_value(rest);
        let q = pow(0x1_0000_0000, rest.len());
        assert(a[0] + 0x1_0000_0000 * x < 0x1_0000_0000 * q) by (nonlinear_arith)
            requires
                x < q,
                a[0] < 0x1_0000_0000,
        ;
    }
}

/// Limbs whose last one is not zero are worth at least `2^32` to the power
/// of their number less one.
pub proof fn lemma_limbs_top(a: Seq<u32>)
    requires
        a.len() > 0,
        a.last() != 0,
    ensures
        limbs_value(a) >= pow(0x1_0000_0000, (a.len() - 1) as nat),
{
    let init = a.drop_last();
    assert(a =~= init + seq![a.last()]);
    lemma_limbs_concat(init, seq![a.last()]);
    assert(seq![a.last()].drop_first() =~= Seq::<u32>::empty());
    reveal_with_fuel(limbs_value, 2);
    vstd::arithmetic::power::lemma_pow_positive(0x1_0000_0000, init.len());
    let q = pow(0x1_0000_0000, init.len());
    assert(q * (a.last() as nat) >= q) by (nonlinear_arith)
        requires
            q > 0,
            a.last() >= 1,
    ;
}

/// Zero limbs are worth zero.
pub proof fn lemma_limbs_zero(a: Seq<u32>)
    requires
        forall|j: int| 0 <= j < a.len() ==> a[j] == 0,
    ensures
        limbs_value(a) == 0,
    decreases a.len(),
{
    if a.len() > 0 {
        lemma_limbs_zero(a.drop_first());
    }
}

/// The limbs of `n`, least significant first, with no zero limb at the top.
pub open spec fn u32_digits(n: nat) -> Seq<u32>
    decreases n,
{
    if n == 0 {
        Seq::empty()
    } else {
        seq![(n % 0x1_0000_0000) as u32] + u32_digits(n / 0x1_0000_0000)
    }
}

/// Limbs with no zero limb at the top are the limbs of their value.
pub proof fn lemma_u32_digits_unique(a: Seq<u32>)
    requires
        a.len() == 0 || a.last() != 0,
    ensures
        a == u32_digits(limbs_value(a)),
    decreases a.len(),
{
    if a.len() == 0 {
        assert(a =~= Seq::<u32>::empty());
    } else {
        let rest = a.drop_first();
        if rest.len() > 0 {
            assert(rest.last() == a.last());
        } else {
            assert(limbs_value(rest) == 0);
        }
        lemma_u32_digits_unique(rest);
        let n = limbs_value(a);
        assert(n != 0) by {
            if rest.len() > 0 {
                lemma_limbs_top(rest);
                vstd::arithmetic::power::lemma_pow_positive(0x1_0000_0000, (rest.len() - 1) as nat);
            }
        }
        assert(n % 0x1_0000_0000 == a[0] as nat);
        assert(n / 0x1_0000_0000 == limbs_value(rest));
        assert(a =~= seq![a[0]] + rest);
    }
}

/// Number of bits needed to write `n` in binary (zero needs none).
pub open spec fn bit_len(n: nat) -> nat
    decreases n,
{
    if n == 0 {
        0
    } else {
        1 + bit_len(n / 2)
    }
}

/// Greatest common divisor, by Euclid's recurrence (`gcd(a, 0) == a`).
pub open spec fn gcd(a: nat, b: nat) -> nat
    decreases b,
{
    if b == 0 {
        a
    } else {
        gcd(b, a % b)
    }
}

/// Value of one digit character in bases up to 36; 36 for any other character.
pub open spec fn digit_of(c: char) -> nat {
    let u = c as u32;
    if 48 <= u <= 57 {
        (u - 48) as nat
    } else if 97 <= u <= 122 {
        (u - 97 + 10) as nat
    } else if 65 <= u <= 90 {
        (u - 65 + 10) as nat
    } else {
        36
    }
}

/// Every character of `s` is a digit of base `radix`.
pub open spec fn all_digits(s: Seq<char>, radix: nat) -> bool {
    forall|i: int| 0 <= i < s.len() ==> #[trigger] digit_of(s[i]) < radix
}

/// The number written by the digits `s`, most significant first.
pub open spec fn radix_value(s: Seq<char>, radix: nat) -> nat
    decreases s.len(),
{
    if s.len() == 0 {
        0
    } else {
        radix_value(s.drop_last(), radix) * radix + digit_of(s.last())
    }
}

/// `s` is a non-empty string of decimal digits.
pub open spec fn is_decimal(s: Seq<char>) -> bool {
    s.len() > 0 && all_digits(s, 10)
}

/// The character of a decimal digit.
pub open spec fn digit_char(d: nat) -> char {
    ((d + 48) as u8) as char
}

/// The canonical decimal form of `n`: no leading zero, `"0"` for zero.
pub open spec fn decimal(n: nat) -> Seq<char>
    decreases n,
{
    if n < 10 {
        seq![digit_char(n)]
    } else {
        decimal(n / 10).push(digit_char(n % 10))
    }
}

/// A natural number of any size.
#[derive(Clone, Debug)]
pub struct BigNat {
    limbs: Vec<u32>,
}

impl View for BigNat {
    type V = nat;

    closed spec fn view(&self) -> nat {
        limbs_value(self.limbs@)
    }
}

impl BigNat {
    /// The number `v`.
    pub fn from_u32(v: u32) -> (r: BigNat)
        ensures
            r@ == v as nat,
    {
        let r = BigNat { limbs: vec![v] };
        proof {
            assert(r.limbs@.drop_first() =~= Seq::<u32>::empty());
            reveal_with_fuel(limbs_value, 2);
        }
        r
    }

    /// The same number, in a value of its own.
    pub fn copy(&self) -> (r: BigNat)
        ensures
            r@ == self@,
    {
        let mut limbs: Vec<u32> = Vec::new();
        let mut i: usize = 0;
        while i < self.limbs.len()
            invariant
                i <= self.limbs@.len(),
                limbs@ == self.limbs@.subrange(0, i as int),
            decreases self.limbs@.len() - i,
        {
            limbs.push(self.limbs[i]);
            i = i + 1;
        }
        assert(limbs@ =~= self.limbs@);
        BigNat { limbs }
    }

    /// The number `w + 2^32 * rest`.
    pub fn prepend_limb(w: u32, rest: &BigNat) -> (r: BigNat)
        ensures
            r@ == w as nat + 0x1_0000_0000 * rest@,
    {
        let mut limbs: Vec<u32> = Vec::new();
        limbs.push(w);
        let mut i: usize = 0;
        while i < rest.limbs.len()
            invariant
                i <= rest.limbs@.len(),
                limbs@ == seq![w] + rest.limbs@.subrange(0, i as int),
            decreases rest.limbs@.len() - i,
        {
            limbs.push(rest.limbs[i]);
            i = i + 1;
        }
        assert(limbs@.drop_first() =~= rest.limbs@);
        BigNat { limbs }
    }

    /// The number itself, where it fits in 32 bits.
    pub fn low_u32(&self) -> (r: u32)
        requires
            self@ < 0x1_0000_0000,
        ensures
            r as nat == self@,
    {
        if self.limbs.len() == 0 {
            0
        } else {
            self.limbs[0]
        }
    }

    /// The limbs of the number, least significant first, with no zero limb
    /// at the top (none at all for zero).
    pub fn to_u32_digits(&self) -> (r: Vec<u32>)
        ensures
            r@ == u32_digits(self@),
            limbs_value(r@) == self@,
            r@.len() == 0 || r@.last() != 0,
    {
        let mut d = self.copy().limbs;
        while d.len() > 0 && d[d.len() - 1] == 0
            invariant
                limbs_value(d@) == self@,
            decreases d@.len(),
        {
            let ghost before = d@;
            d.pop();
            proof {
                assert(before =~= d@ + seq![0u32]);
                lemma_limbs_concat(d@, seq![0u32]);
                lemma_limbs_zero(seq![0u32]);
            }
        }
        proof {
            lemma_u32_digits_unique(d@);
        }
        d
    }

    /// The number as eight limbs, least significant first; `None` when it
    /// does not fit in 256 bits.
    pub fn to_fixed(&self) -> (r: Option<[u32; 8]>)
        ensures
            r is Some <==> self@ < pow(0x1_0000_0000, 8),
            r matches Some(w) ==> limbs_value(w@) == self@,
    {
        let d = self.to_u32_digits();
        if d.len() > 8 {
            proof {
                lemma_limbs_top(d@);
                vstd::arithmetic::power::lemma_pow_increases(
                    0x1_0000_0000,
                    8,
                    (d@.len() - 1) as nat,
                );
            }
            return None;
        }
        let mut w: [u32; 8] = [0u32; 8];
        let mut i: usize = 0;
        while i < d.len()
            invariant
                d@.len() <= 8,
                i <= d@.len(),
                forall|j: int| 0 <= j < i ==> w@[j] == d@[j],
                forall|j: int| i <= j < 8 ==> w@[j] == 0,
            decreases d@.len() - i,
        {
            w[i] = d[i];
            i = i + 1;
        }
        proof {
            let zeros = Seq::<u32>::new((8 - d@.len()) as nat, |j: int| 0u32);
            assert(w@ =~= d@ + zeros);
            lemma_limbs_concat(d@, zeros);
            lemma_limbs_zero(zeros);
            lemma_limbs_bound(d@);
            vstd::arithmetic::power::lemma_pow_increases(0x1_0000_0000, d@.len(), 8);
        }
        Some(w)
    }

    /// The number that eight limbs, least significant first, denote.
    pub fn from_fixed(w: &[u32; 8]) -> (r: BigNat)
        ensures
            r@ == limbs_value(w@),
    {
        let mut limbs: Vec<u32> = Vec::new();
        let mut i: usize = 0;
        while i < 8
            invariant
                i <= 8,
                limbs@ == w@.subrange(0, i as int),
            decreases 8 - i,
        {
            limbs.push(w[i]);
            i = i + 1;
        }
        assert(limbs@ =~= w@);
        BigNat { limbs }
    }

    /// Relies on `BigUint` addition.
    #[verifier::external_body]
    fn big_add(&self, o: &BigNat) -> (r: BigNat)
        ensures
            r@ == self@ + o@,
    {
        let s = BigUint::new(self.limbs.clone()) + BigUint::new(o.limbs.clone());
        BigNat { limbs: s.to_u32_digits() }
    }

    /// Relies on `BigUint` subtraction, which panics below zero.
    #[verifier::external_body]
    fn big_sub(&self, o: &BigNat) -> (r: BigNat)
        requires
            o@ <= self@,
        ensures
            r@ == self@ - o@,
    {
        let s = BigUint::new(self.limbs.clone()) - BigUint::new(o.limbs.clone());
        BigNat { limbs: s.to_u32_digits() }
    }

    /// Relies on `BigUint` multiplication.
    #[verifier::external_body]
    fn big_mul(&self, o: &BigNat) -> (r: BigNat)
        ensures
            r@ == self@ * o@,
    {
        let s = BigUint::new(self.limbs.clone()) * BigUint::new(o.limbs.clone());
        BigNat { limbs: s.to_u32_digits() }
    }

    /// Relies on `BigUint` division, which panics on a zero divisor.
    #[verifier::external_body]
    fn big_div(&self, o: &BigNat) -> (r: BigNat)
        requires
            o@ > 0,
        ensures
            r@ == self@ / o@,
    {
        let s = BigUint::new(self.limbs.clone()) / BigUint::new(o.limbs.clone());
        BigNat { limbs: s.to_u32_digits() }
    }

    /// Relies on `Integer::mod_floor` of `BigUint`, which panics on a zero modulus.
    #[verifier::external_body]
    fn big_mod_floor(&self, o: &BigNat) -> (r: BigNat)
        requires
            o@ > 0,
        ensures
            r@ == self@ % o@,
    {
        let s = BigUint::new(self.limbs.clone()).mod_floor(&BigUint::new(o.limbs.clone()));
        BigNat { limbs: s.to_u32_digits() }
    }

    /// Relies on `BigUint::modpow`: `(self ^ e) % m`; it panics on a zero modulus.
    #[verifier::external_body]
    fn big_modpow(&self, e: &BigNat, m: &BigNat) -> (r: BigNat)
        requires
            m@ > 1,
        ensures
            r@ == pow(self@ as int, e@) % (m@ as int),
    {
        let b = BigUint::new(self.limbs.clone());
        let s = b.modpow(&BigUint::new(e.limbs.clone()), &BigUint::new(m.limbs.clone()));
        BigNat { limbs: s.to_u32_digits() }
    }

    /// Relies on `BigUint::pow`.
    #[verifier::external_body]
    fn big_pow(&self, e: u32) -> (r: BigNat)
        ensures
            r@ == pow(self@ as int, e as nat),
    {
        let s = BigUint::new(self.limbs.clone()).pow(e);
        BigNat { limbs: s.to_u32_digits() }
    }

    /// Relies on `Integer::gcd` of `BigUint`.
    #[verifier::external_body]
    fn big_gcd(&self, o: &BigNat) -> (r: BigNat)
        ensures
            r@ == gcd(self@, o@),
    {
        let s = BigUint::new(self.limbs.clone()).gcd(&BigUint::new(o.limbs.clone()));
        BigNat { limbs: s.to_u32_digits() }
    }

    /// Relies on `BigUint::bits`: the fewest bits that express the number.
    #[verifier::external_body]
    fn big_bits(&self) -> (r: u64)
        ensures
            r as nat == bit_len(self@),
    {
        BigUint::new(self.limbs.clone()).bits()
    }

    /// Relies on `BigUint`'s `<`.
    #[verifier::external_body]
    fn big_lt(&self, o: &BigNat) -> (r: bool)
        ensures
            r == (self@ < o@),
    {
        BigUint::new(self.limbs.clone()) < BigUint::new(o.limbs.clone())
    }

    /// Relies on `BigUint`'s `==`.
    #[verifier::external_body]
    fn big_eq(&self, o: &BigNat) -> (r: bool)
        ensures
            r == (self@ == o@),
    {
        BigUint::new(self.limbs.clone()) == BigUint::new(o.limbs.clone())
    }

    /// Relies on `BigUint::to_str_radix` in base 10.
    #[verifier::external_body]
    fn big_to_decimal(&self) -> (r: String)
        ensures
            r@ == decimal(self@),
    {
        BigUint::new(self.limbs.clone()).to_str_radix(10)
    }

    /// Relies on `Num::from_str_radix` of `BigUint`: a non-empty string of
    /// digits of the base is read as a number; it panics on a base outside 2..=36.
    #[verifier::external_body]
    fn big_from_str_radix(s: &str, radix: u32) -> (r: Option<BigNat>)
        requires
            2 <= radix <= 36,
        ensures
            s@.len() > 0 && all_digits(s@, radix as nat) ==> r is Some && r->0@ == radix_value(
                s@,
                radix as nat,
            ),
    {
        match BigUint::from_str_radix(s, radix) {
            Ok(v) => Some(BigNat { limbs: v.to_u32_digits() }),
            Err(_) => None,
        }
    }

    /// `self + o`.
    pub fn add(&self, o: &BigNat) -> (r: BigNat)
        ensures
            r@ == self@ + o@,
    {
        self.big_add(o)
    }

    /// `self - o`, for `o <= self`.
    pub fn sub(&self, o: &BigNat) -> (r: BigNat)
        requires
            o@ <= self@,
        ensures
            r@ == self@ - o@,
    {
        self.big_sub(o)
    }

    /// `self * o`.
    pub fn mul(&self, o: &BigNat) -> (r: BigNat)
        ensures
            r@ == self@ * o@,
    {
        self.big_mul(o)
    }

    /// The quotient `self / o`, for `o > 0`.
    pub fn div(&self, o: &BigNat) -> (r: BigNat)
        requires
            o@ > 0,
        ensures
            r@ == self@ / o@,
    {
        self.big_div(o)
    }

    /// The remainder `self mod o`, for `o > 0`.
    pub fn mod_floor(&self, o: &BigNat) -> (r: BigNat)
        requires
            o@ > 0,
        ensures
            r@ == self@ % o@,
    {
        self.big_mod_floor(o)
    }

    /// `self^e mod m`, for `m > 1`.
    pub fn modpow(&self, e: &BigNat, m: &BigNat) -> (r: BigNat)
        requires
            m@ > 1,
        ensures
            r@ == pow(self@ as int, e@) % (m@ as int),
    {
        self.big_modpow(e, m)
    }

    /// `self^e`.
    pub fn pow(&self, e: u32) -> (r: BigNat)
        ensures
            r@ == pow(self@ as int, e as nat),
    {
        self.big_pow(e)
    }

    /// The greatest common divisor of `self` and `o`.
    pub fn gcd(&self, o: &BigNat) -> (r: BigNat)
        ensures
            r@ == gcd(self@, o@),
    {
        self.big_gcd(o)
    }

    /// The number of bits needed to write the number.
    pub fn bits(&self) -> (r: u64)
        ensures
            r as nat == bit_len(self@),
    {
        self.big_bits()
    }

    /// `self < o`.
    pub fn lt(&self, o: &BigNat) -> (r: bool)
        ensures
            r == (self@ < o@),
    {
        self.big_lt(o)
    }

    /// `self == o`.
    pub fn eq(&self, o: &BigNat) -> (r: bool)
        ensures
            r == (self@ == o@),
    {
        self.big_eq(o)
    }

    /// The decimal form of the number.
    pub fn to_decimal(&self) -> (r: String)
        ensures
            r@ == decimal(self@),
    {
        self.big_to_decimal()
    }

    /// The number that the digits `s` of base `radix` write, most
    /// significant first; `Some` at least for every non-empty string of such
    /// digits.
    pub fn from_str_radix(s: &str, radix: u32) -> (r: Option<BigNat>)
        requires
            2 <= radix <= 36,
        ensures
            s@.len() > 0 && all_digits(s@, radix as nat) ==> r is Some && r->0@ == radix_value(
                s@,
                radix as nat,
            ),
    {
        BigNat::big_from_str_radix(s, radix)
    }
}

} // verus!
