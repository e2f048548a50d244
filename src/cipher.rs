//! The ElGamal transform on text: encryption with a public key and a
//! generator, decryption with the private key.
//!
//! A ciphertext is ASCII: for each encoded number a pair `c d` of decimal
//! numbers, each followed by one space.
use crate::bignat::{decimal, digit_char, digit_of, is_decimal, radix_value, BigNat};
use crate::codec::{
    chunk_values, decode_spec, decode_utf16, encode_spec, encode_utf16, lemma_codec_round_trip,
    marked_bytes, nats_of,
};
use crate::generic::{is_key_pair, PrivateKey, PublicKey};
use crate::number_theory::{is_prime, lemma_fermat, lemma_pow_not_divisible};
use crate::prng::{Prng, PrngState};
use crate::text::{
    is_digits, is_white_space_char, lemma_split_nonempty, prepend_first, split_ascii, split_by,
    trim_last_white_space, views_of,
};
use crate::utils::{gen_bigint_range, sample_range};
use vstd::arithmetic::power::pow;
use vstd::prelude::*;

verus! {

/// One encrypted pair for the number `m` and the exponent `y`:
/// `c = g^y mod p` and `d = m * (h^y mod p) mod p`.
pub open spec fn cipher_pair(p: nat, g: nat, h: nat, m: nat, y: nat) -> (nat, nat) {
    (
        (pow(g as int, y) % (p as int)) as nat,
        ((m as int * (pow(h as int, y) % (p as int))) % (p as int)) as nat,
    )
}

/// The text of one pair: `c`, a space, `d`, a space.
pub open spec fn pair_text(c: nat, d: nat) -> Seq<char> {
    decimal(c) + seq![' '] + decimal(d) + seq![' ']
}

/// A result with `prefix` put in front of its text.
pub open spec fn with_prefix(prefix: Seq<char>, r: (Option<Seq<char>>, PrngState)) -> (
    Option<Seq<char>>,
    PrngState,
) {
    (
        match r.0 {
            Some(t) => Some(prefix + t),
            None => None,
        },
        r.1,
    )
}

/// Encryption of the numbers `ms` with the key `(p, g, h)`: for each number,
/// an exponent `y` drawn from `[0, p-1]` and the text of its pair. `None`
/// when the budget runs out.
pub open spec fn encrypt_numbers(st: PrngState, p: nat, g: nat, h: nat, ms: Seq<nat>) -> (
    Option<Seq<char>>,
    PrngState,
)
    decreases ms.len(),
{
    if ms.len() == 0 {
        (Some(Seq::empty()), st)
    } else {
        let d = sample_range(st, 0, (p - 1) as nat);
        match d.0 {
            None => (None, d.1),
            Some(y) => {
                let cd = cipher_pair(p, g, h, ms[0], y);
                with_prefix(pair_text(cd.0, cd.1), encrypt_numbers(d.1, p, g, h, ms.drop_first()))
            },
        }
    }
}

/// Encrypts `plaintext` with `key`, drawing one exponent from `rng` per
/// encoded number. `None` when `key.bit_length` is below 8 (nothing drawn
/// then) or the budget of `rng` runs out.
pub fn encrypt(plaintext: &str, key: &PublicKey, rng: &mut Prng) -> (r: Option<String>)
    requires
        key.p@ >= 2,
    ensures
        match encode_spec(plaintext@, key.bit_length as nat) {
            None => r is None && final(rng)@ == old(rng)@,
            Some(ms) => {
                let e = encrypt_numbers(old(rng)@, key.p@, key.g@, key.h@, ms);
                &&& final(rng)@ == e.1
                &&& match r {
                    Some(s) => e.0 == Some(s@),
                    None => e.0 is None,
                }
            },
        },
{
    let z = match encode_utf16(plaintext, key.bit_length) {
        Some(z) => z,
        None => {
            return None;
        },
    };
    let ghost ms = nats_of(z@);
    let ghost st0 = rng@;
    let zero = BigNat::from_u32(0);
    let high = key.p.sub(&BigNat::from_u32(1));
    let mut encrypted_str = String::new();
    let mut i: usize = 0;
    proof {
        reveal_strlit(" ");
        assert(ms.subrange(0, ms.len() as int) =~= ms);
        assert(Seq::<char>::empty() + encrypt_numbers(st0, key.p@, key.g@, key.h@, ms).0->0
            =~= encrypt_numbers(st0, key.p@, key.g@, key.h@, ms).0->0);
    }
    while i < z.len()
        invariant
            key.p@ >= 2,
            st0 == old(rng)@,
            ms == nats_of(z@),
            encode_spec(plaintext@, key.bit_length as nat) == Some(ms),
            i <= z@.len(),
            zero@ == 0,
            high@ == key.p@ - 1,
            " "@ == seq![' '],
            with_prefix(
                encrypted_str@,
                encrypt_numbers(rng@, key.p@, key.g@, key.h@, ms.subrange(i as int, ms.len() as int)),
            ) == encrypt_numbers(st0, key.p@, key.g@, key.h@, ms),
        decreases z@.len() - i,
    {
        let ghost rest = ms.subrange(i as int, ms.len() as int);
        let ghost before = rng@;
        let y = match gen_bigint_range(rng, &zero, &high) {
            Some(y) => y,
            None => {
                assert(encrypt_numbers(before, key.p@, key.g@, key.h@, rest) == (
                    None::<Seq<char>>,
                    rng@,
                ));
                return None;
            },
        };
        let c = key.g.modpow(&y, &key.p);
        let d = z[i].mul(&key.h.modpow(&y, &key.p)).mod_floor(&key.p);
        let ghost prefix = encrypted_str@;
        let c_str = c.to_decimal();
        let d_str = d.to_decimal();
        encrypted_str.append(c_str.as_str());
        encrypted_str.append(" ");
        encrypted_str.append(d_str.as_str());
        encrypted_str.append(" ");
        proof {
            assert(rest[0] == z@[i as int]@);
            assert(rest.drop_first() =~= ms.subrange(i + 1, ms.len() as int));
            let piece = pair_text(c@, d@);
            assert(encrypted_str@ =~= prefix + piece);
            let tail = encrypt_numbers(rng@, key.p@, key.g@, key.h@, ms.subrange(i + 1, ms.len() as int));
            if tail.0 is Some {
                assert(prefix + (piece + tail.0->0) =~= (prefix + piece) + tail.0->0);
            }
        }
        i = i + 1;
    }
    proof {
        assert(ms.subrange(i as int, ms.len() as int) =~= Seq::<nat>::empty());
        assert(encrypted_str@ + Seq::<char>::empty() =~= encrypted_str@);
        assert(encrypt_numbers(st0, key.p@, key.g@, key.h@, ms) == (
            Some(encrypted_str@),
            rng@,
        ));
    }
    Some(encrypted_str)
}

/// The number that the pair `(c, d)` decrypts to with the key `(p, x)`:
/// `s = c^x mod p`, and `d * s^(p-2) mod p`, `s^(p-2)` being the inverse of
/// `s` modulo the prime `p`.
pub open spec fn plain_number(p: nat, x: nat, c: nat, d: nat) -> nat {
    let s = pow(c as int, x) % (p as int);
    let inv = pow(s, (p - 2) as nat) % (p as int);
    ((d as int * inv) % (p as int)) as nat
}

/// The tokens of a ciphertext: one trailing white-space character dropped,
/// the rest cut at each space.
pub open spec fn cipher_tokens(cipher: Seq<char>) -> Seq<Seq<char>> {
    split_by(trim_last_white_space(cipher), seq![' '])
}

/// The numbers that the tokens of a well-formed ciphertext decrypt to.
pub open spec fn plain_numbers(toks: Seq<Seq<char>>, p: nat, x: nat) -> Seq<nat> {
    Seq::new(
        toks.len() / 2,
        |i: int| plain_number(p, x, radix_value(toks[2 * i], 10), radix_value(toks[2 * i + 1], 10)),
    )
}

/// A ciphertext is well formed: not empty, ASCII, and an even number of
/// tokens, each a decimal number.
pub open spec fn well_formed_cipher(cipher: Seq<char>) -> bool {
    let toks = cipher_tokens(cipher);
    &&& cipher.len() > 0
    &&& vstd::utf8::is_ascii_chars(trim_last_white_space(cipher))
    &&& toks.len() % 2 == 0
    &&& forall|i: int| 0 <= i < toks.len() ==> is_decimal(#[trigger] toks[i])
}

/// The text that `cipher` decrypts to with the key `(p, x)` for keys of
/// `bit_length` bits; `None` for a malformed ciphertext or numbers that do
/// not decode.
pub open spec fn decrypt_spec(cipher: Seq<char>, p: nat, x: nat, bit_length: nat) -> Option<
    Seq<char>,
> {
    if well_formed_cipher(cipher) {
        decode_spec(plain_numbers(cipher_tokens(cipher), p, x), bit_length)
    } else {
        None
    }
}

/// Decrypts `ciphertext` with `key`. `None` when the ciphertext is
/// malformed (empty, not ASCII, an odd number of tokens, a token that is no
/// decimal number) or its numbers do not decode to text.
pub fn decrypt(ciphertext: &str, key: &PrivateKey) -> (r: Option<String>)
    requires
        key.p@ >= 2,
    ensures
        match r {
            Some(s) => decrypt_spec(ciphertext@, key.p@, key.x@, key.bit_length as nat) == Some(
                s@,
            ),
            None => decrypt_spec(ciphertext@, key.p@, key.x@, key.bit_length as nat) is None,
        },
{
    let n = ciphertext.unicode_len();
    if n == 0 {
        return None;
    }
    let last = ciphertext.get_char(n - 1);
    let reduced = if is_white_space_char(last) {
        ciphertext.substring_char(0, n - 1)
    } else {
        ciphertext
    };
    assert(reduced@ =~= trim_last_white_space(ciphertext@));
    if !reduced.is_ascii() {
        return None;
    }
    proof {
        reveal_strlit(" ");
        assert(" "@ =~= seq![' ']);
    }
    let ciphers = split_ascii(reduced, " ");
    let ghost toks = views_of(ciphers@);
    assert(toks == cipher_tokens(ciphertext@));
    let count = ciphers.len();
    if count % 2 != 0 {
        return None;
    }
    let mut k: usize = 0;
    while k < count
        invariant
            count == ciphers@.len(),
            toks == views_of(ciphers@),
            toks == cipher_tokens(ciphertext@),
            k <= count,
            forall|j: int| 0 <= j < k ==> is_decimal(#[trigger] toks[j]),
        decreases count - k,
    {
        if !is_digits(ciphers[k].as_str(), 10) {
            assert(!is_decimal(toks[k as int]));
            assert(!well_formed_cipher(ciphertext@));
            return None;
        }
        k = k + 1;
    }
    let p_minus_2 = key.p.sub(&BigNat::from_u32(2));
    let mut plain_text: Vec<BigNat> = Vec::new();
    let mut i: usize = 0;
    while i < count / 2
        invariant
            count == ciphers@.len(),
            count % 2 == 0,
            toks == views_of(ciphers@),
            toks == cipher_tokens(ciphertext@),
            vstd::utf8::is_ascii_chars(trim_last_white_space(ciphertext@)),
            ciphertext@.len() > 0,
            key.p@ >= 2,
            p_minus_2@ == key.p@ - 2,
            i <= count / 2,
            forall|j: int| 0 <= j < count ==> is_decimal(#[trigger] toks[j]),
            nats_of(plain_text@) == plain_numbers(toks, key.p@, key.x@).subrange(0, i as int),
        decreases count / 2 - i,
    {
        assert(is_decimal(toks[2 * i as int]));
        assert(is_decimal(toks[2 * i + 1]));
        let c_int = match BigNat::from_str_radix(ciphers[2 * i].as_str(), 10) {
            Some(v) => v,
            None => {
                return None;
            },
        };
        let d_int = match BigNat::from_str_radix(ciphers[2 * i + 1].as_str(), 10) {
            Some(v) => v,
            None => {
                return None;
            },
        };
        let s = c_int.modpow(&key.x, &key.p);
        let mod_exp_s = s.modpow(&p_minus_2, &key.p);
        let plain_i = d_int.mul(&mod_exp_s).mod_floor(&key.p);
        assert(ciphers@[2 * i as int]@ == toks[2 * i as int]);
        assert(ciphers@[2 * i + 1]@ == toks[2 * i + 1]);
        assert(plain_i@ == plain_number(
            key.p@,
            key.x@,
            radix_value(toks[2 * i as int], 10),
            radix_value(toks[2 * i + 1], 10),
        ));
        let ghost old_nats = nats_of(plain_text@);
        plain_text.push(plain_i);
        proof {
            assert(toks.len() == count);
            assert(plain_numbers(toks, key.p@, key.x@)[i as int] == plain_i@);
            assert(nats_of(plain_text@) =~= old_nats.push(plain_i@));
            assert(nats_of(plain_text@) =~= plain_numbers(toks, key.p@, key.x@).subrange(
                0,
                i + 1,
            ));
        }
        i = i + 1;
    }
    proof {
        assert(plain_numbers(toks, key.p@, key.x@).subrange(0, i as int) =~= plain_numbers(
            toks,
            key.p@,
            key.x@,
        ));
        assert(vstd::utf8::is_ascii_chars(trim_last_white_space(ciphertext@)));
        assert(well_formed_cipher(ciphertext@));
    }
    decode_utf16(&plain_text, key.bit_length)
}

/// A ciphertext with an odd number of tokens decrypts to nothing.
pub proof fn lemma_odd_tokens_decrypt_to_nothing(cipher: Seq<char>, p: nat, x: nat, bit_length: nat)
    requires
        cipher_tokens(cipher).len() % 2 == 1,
    ensures
        decrypt_spec(cipher, p, x, bit_length) is None,
{
}

/// Decrypting one pair gives back its number: for a prime `p`, a base
/// `0 < g < p`, `h = g^x mod p` and a number `m < p`, the pair that `m` and
/// any exponent `y` encrypt to decrypts to `m`.
pub proof fn lemma_pair_round_trip(p: nat, g: nat, x: nat, y: nat, m: nat)
    requires
        is_prime(p),
        0 < g < p,
        m < p,
    ensures
        ({
            let h = (pow(g as int, x) % (p as int)) as nat;
            let cd = cipher_pair(p, g, h, m, y);
            plain_number(p, x, cd.0, cd.1) == m
        }),
{
    let pi = p as int;
    let gi = g as int;
    let h = (pow(gi, x) % pi) as nat;
    let cd = cipher_pair(p, g, h, m, y);
    let c = cd.0;
    let e = cd.1;
    vstd::arithmetic::power::lemma_pow_positive(gi, x);
    vstd::arithmetic::power::lemma_pow_positive(gi, y);
    // c^x and h^y are both g^(x y) modulo p
    vstd::arithmetic::power::lemma_pow_mod_noop(pow(gi, y), x, pi);
    vstd::arithmetic::power::lemma_pow_multiplies(gi, y, x);
    vstd::arithmetic::power::lemma_pow_mod_noop(pow(gi, x), y, pi);
    vstd::arithmetic::power::lemma_pow_multiplies(gi, x, y);
    assert(y * x == x * y) by (nonlinear_arith);
    let s = pow(c as int, x) % pi;
    assert(s == pow(gi, x * y) % pi);
    assert(pow(h as int, y) % pi == s);
    lemma_pow_not_divisible(g, x * y, p);
    assert(0 < s < pi);
    lemma_fermat(s as nat, p);
    // e * s^(p-2) is m * s^(p-1) modulo p
    let inv = pow(s, (p - 2) as nat) % pi;
    vstd::arithmetic::power::lemma_pow_adds(s, 1, (p - 2) as nat);
    vstd::arithmetic::power::lemma_pow1(s);
    assert(pow(s, (p - 1) as nat) == s * pow(s, (p - 2) as nat));
    assert(e == (m * s) % pi);
    vstd::arithmetic::div_mod::lemma_mul_mod_noop_general(m * s, pow(s, (p - 2) as nat), pi);
    assert((e * inv) % pi == (m * s * pow(s, (p - 2) as nat)) % pi);
    assert(m * s * pow(s, (p - 2) as nat) == m * pow(s, (p - 1) as nat)) by (nonlinear_arith)
        requires
            pow(s, (p - 1) as nat) == s * pow(s, (p - 2) as nat),
    ;
    vstd::arithmetic::div_mod::lemma_mul_mod_noop_general(m as int, pow(s, (p - 1) as nat), pi);
    vstd::arithmetic::div_mod::lemma_small_mod(m, p);
    assert((m as int * 1) % pi == m);
}

/// The decimal form of a number is a decimal number with that value.
pub proof fn lemma_decimal(n: nat)
    ensures
        is_decimal(decimal(n)),
        radix_value(decimal(n), 10) == n,
    decreases n,
{
    let d = decimal(n);
    if n < 10 {
        assert(digit_of(digit_char(n)) == n);
        reveal_with_fuel(radix_value, 2);
        assert(d.drop_last() =~= Seq::<char>::empty());
    } else {
        lemma_decimal(n / 10);
        let r = n % 10;
        assert(digit_of(digit_char(r)) == r);
        assert(d.drop_last() =~= decimal(n / 10));
        assert forall|i: int| 0 <= i < d.len() implies #[trigger] digit_of(d[i]) < 10 by {
            if i < d.len() - 1 {
                assert(d[i] == decimal(n / 10)[i]);
            }
        }
    }
}

/// A word without spaces splits into itself.
pub proof fn lemma_split_word(w: Seq<char>)
    requires
        forall|i: int| 0 <= i < w.len() ==> w[i] != ' ',
    ensures
        split_by(w, seq![' ']) == seq![w],
    decreases w.len(),
{
    if w.len() > 0 {
        let rest = w.drop_first();
        lemma_split_word(rest);
        assert(w.subrange(0, 1) != seq![' ']) by {
            assert(w.subrange(0, 1)[0] == w[0]);
        }
        assert(seq![w[0]] + rest =~= w);
    }
}

/// A word without spaces, a space, and more: the word is the first part.
pub proof fn lemma_split_first_word(w: Seq<char>, rest: Seq<char>)
    requires
        forall|i: int| 0 <= i < w.len() ==> w[i] != ' ',
    ensures
        split_by(w + seq![' '] + rest, seq![' ']) == seq![w] + split_by(rest, seq![' ']),
    decreases w.len(),
{
    let s = w + seq![' '] + rest;
    lemma_split_nonempty(rest, seq![' ']);
    if w.len() == 0 {
        assert(s.subrange(0, 1) =~= seq![' ']);
        assert(s.subrange(1, s.len() as int) =~= rest);
        assert(w =~= Seq::<char>::empty());
    } else {
        let w2 = w.drop_first();
        lemma_split_first_word(w2, rest);
        assert(s.subrange(0, 1) != seq![' ']) by {
            assert(s.subrange(0, 1)[0] == w[0]);
        }
        assert(s.drop_first() =~= w2 + seq![' '] + rest);
        let t = split_by(rest, seq![' ']);
        assert(seq![w[0]] + w2 =~= w);
        assert(prepend_first(seq![w[0]], seq![w2] + t) =~= seq![w] + t);
    }
}

/// The text of pairs, one after the other.
pub open spec fn pairs_text(ps: Seq<(nat, nat)>) -> Seq<char>
    decreases ps.len(),
{
    if ps.len() == 0 {
        Seq::empty()
    } else {
        pair_text(ps[0].0, ps[0].1) + pairs_text(ps.drop_first())
    }
}

/// The tokens of pairs: the decimal forms of their numbers, in order.
pub open spec fn pairs_tokens(ps: Seq<(nat, nat)>) -> Seq<Seq<char>>
    decreases ps.len(),
{
    if ps.len() == 0 {
        Seq::empty()
    } else {
        seq![decimal(ps[0].0), decimal(ps[0].1)] + pairs_tokens(ps.drop_first())
    }
}

/// The character of a decimal digit is one of `'0'` to `'9'`.
pub proof fn lemma_digit_char(d: nat)
    requires
        d < 10,
    ensures
        '0' <= digit_char(d) <= '9',
{
}

/// A decimal form holds digit characters only, so no space.
pub proof fn lemma_decimal_no_space(n: nat)
    ensures
        forall|i: int| 0 <= i < decimal(n).len() ==> decimal(n)[i] != ' ',
        forall|i: int| 0 <= i < decimal(n).len() ==> '0' <= #[trigger] decimal(n)[i] <= '9',
    decreases n,
{
    if n < 10 {
        lemma_digit_char(n);
    } else {
        lemma_decimal_no_space(n / 10);
        lemma_digit_char(n % 10);
        let d = decimal(n);
        assert forall|i: int| 0 <= i < d.len() implies '0' <= #[trigger] d[i] <= '9' by {
            if i < d.len() - 1 {
                assert(d[i] == decimal(n / 10)[i]);
            }
        }
    }
}

/// The text of pairs less its last space splits into their tokens.
pub proof fn lemma_pairs_tokens(ps: Seq<(nat, nat)>)
    requires
        ps.len() > 0,
    ensures
        pairs_text(ps).len() > 0,
        pairs_text(ps).last() == ' ',
        split_by(pairs_text(ps).drop_last(), seq![' ']) == pairs_tokens(ps),
    decreases ps.len(),
{
    let c = decimal(ps[0].0);
    let d = decimal(ps[0].1);
    lemma_decimal_no_space(ps[0].0);
    lemma_decimal_no_space(ps[0].1);
    let rest = ps.drop_first();
    if rest.len() == 0 {
        assert(pairs_text(rest) =~= Seq::<char>::empty());
        assert(pairs_text(ps).drop_last() =~= c + seq![' '] + d);
        lemma_split_first_word(c, d);
        lemma_split_word(d);
        assert(pairs_tokens(rest) =~= Seq::<Seq<char>>::empty());
        assert(seq![c] + seq![d] =~= seq![c, d] + pairs_tokens(rest));
    } else {
        lemma_pairs_tokens(rest);
        let tail = pairs_text(rest).drop_last();
        assert(pairs_text(ps).drop_last() =~= c + seq![' '] + (d + seq![' '] + tail));
        lemma_split_first_word(c, d + seq![' '] + tail);
        lemma_split_first_word(d, tail);
        assert(seq![c] + (seq![d] + pairs_tokens(rest)) =~= seq![c, d] + pairs_tokens(rest));
    }
}

/// The tokens of pairs: two for each pair, its numbers in decimal.
pub proof fn lemma_pairs_token_facts(ps: Seq<(nat, nat)>)
    ensures
        pairs_tokens(ps).len() == 2 * ps.len(),
        forall|i: int|
            0 <= i < ps.len() ==> #[trigger] pairs_tokens(ps)[2 * i] == decimal(ps[i].0)
                && pairs_tokens(ps)[2 * i + 1] == decimal(ps[i].1),
        forall|j: int| 0 <= j < pairs_tokens(ps).len() ==> is_decimal(#[trigger] pairs_tokens(ps)[j]),
    decreases ps.len(),
{
    if ps.len() > 0 {
        let rest = ps.drop_first();
        lemma_pairs_token_facts(rest);
        lemma_decimal(ps[0].0);
        lemma_decimal(ps[0].1);
        let t = pairs_tokens(ps);
        let tr = pairs_tokens(rest);
        assert forall|i: int| 0 <= i < ps.len() implies t[2 * i] == decimal(ps[i].0) && t[2 * i
            + 1] == decimal(ps[i].1) by {
            if i > 0 {
                assert(t[2 * i] == tr[2 * (i - 1)]);
                assert(t[2 * i + 1] == tr[2 * (i - 1) + 1]);
                assert(rest[i - 1] == ps[i]);
            }
        }
        assert forall|j: int| 0 <= j < t.len() implies is_decimal(#[trigger] t[j]) by {
            if j >= 2 {
                assert(t[j] == tr[j - 2]);
            }
        }
    }
}

/// The text of pairs is ASCII.
pub proof fn lemma_pairs_text_ascii(ps: Seq<(nat, nat)>)
    ensures
        vstd::utf8::is_ascii_chars(pairs_text(ps)),
        pairs_text(ps).len() > 0 ==> vstd::utf8::is_ascii_chars(pairs_text(ps).drop_last()),
    decreases ps.len(),
{
    if ps.len() > 0 {
        let rest = ps.drop_first();
        lemma_pairs_text_ascii(rest);
        lemma_decimal_no_space(ps[0].0);
        lemma_decimal_no_space(ps[0].1);
        let c = decimal(ps[0].0);
        let d = decimal(ps[0].1);
        let t = pairs_text(ps);
        let tr = pairs_text(rest);
        assert(t =~= c + seq![' '] + d + seq![' '] + tr);
        assert forall|i: int| 0 <= i < t.len() implies '\0' <= #[trigger] t[i] <= '\u{7f}' by {
            if i < c.len() {
                assert(t[i] == c[i]);
            } else if i == c.len() {
            } else if i < c.len() + 1 + d.len() {
                assert(t[i] == d[i - c.len() - 1]);
            } else if i == c.len() + 1 + d.len() {
            } else {
                assert(t[i] == tr[i - c.len() - 2 - d.len()]);
            }
        }
        assert forall|i: int| 0 <= i < t.len() - 1 implies '\0' <= #[trigger] t.drop_last()[i]
            <= '\u{7f}' by {
            assert(t.drop_last()[i] == t[i]);
        }
    }
}

/// The pairs that `ms` and the exponents `ys` encrypt to.
pub open spec fn cipher_pairs(p: nat, g: nat, h: nat, ms: Seq<nat>, ys: Seq<nat>) -> Seq<
    (nat, nat),
> {
    Seq::new(ms.len(), |i: int| cipher_pair(p, g, h, ms[i], ys[i]))
}

/// What [`encrypt_numbers`] writes is the text of the pairs of its numbers,
/// for the exponents it drew; the exponents are returned.
pub proof fn lemma_encrypted_pairs(st: PrngState, p: nat, g: nat, h: nat, ms: Seq<nat>) -> (ys:
    Seq<nat>)
    requires
        encrypt_numbers(st, p, g, h, ms).0 is Some,
    ensures
        ys.len() == ms.len(),
        encrypt_numbers(st, p, g, h, ms).0 == Some(pairs_text(cipher_pairs(p, g, h, ms, ys))),
    decreases ms.len(),
{
    if ms.len() == 0 {
        assert(cipher_pairs(p, g, h, ms, Seq::empty()) =~= Seq::<(nat, nat)>::empty());
        Seq::empty()
    } else {
        let d = sample_range(st, 0, (p - 1) as nat);
        let y = d.0->0;
        let rest = ms.drop_first();
        let ys0 = lemma_encrypted_pairs(d.1, p, g, h, rest);
        let ys = seq![y] + ys0;
        let ps = cipher_pairs(p, g, h, ms, ys);
        assert(ps.drop_first() =~= cipher_pairs(p, g, h, rest, ys0));
        ys
    }
}

/// Encryption and decryption are inverse: for a prime `p`, a base
/// `0 < g < p`, the key pair `h = g^x mod p` and `x`, and a text whose
/// encoding fills whole chunks of numbers below `p`, any ciphertext that
/// encryption gives decrypts to the text.
pub proof fn lemma_encrypt_decrypt_round_trip(
    text: Seq<char>,
    p: nat,
    g: nat,
    x: nat,
    bit_length: nat,
    st: PrngState,
)
    requires
        is_prime(p),
        0 < g < p,
        bit_length / 8 >= 1,
        (marked_bytes(text).len() as int) % ((bit_length / 8) as int) == 0,
        forall|i: int|
            0 <= i < chunk_values(marked_bytes(text), bit_length / 8).len() ==> #[trigger] chunk_values(
                marked_bytes(text),
                bit_length / 8,
            )[i] < p,
    ensures
        encode_spec(text, bit_length) matches Some(ms) && (encrypt_numbers(
            st,
            p,
            g,
            (pow(g as int, x) % (p as int)) as nat,
            ms,
        ).0 matches Some(c) ==> decrypt_spec(c, p, x, bit_length) == Some(text)),
{
    let k = bit_length / 8;
    let h = (pow(g as int, x) % (p as int)) as nat;
    lemma_codec_round_trip(text, bit_length);
    let ms = chunk_values(marked_bytes(text), k);
    if let Some(c) = encrypt_numbers(st, p, g, h, ms).0 {
        let ys = lemma_encrypted_pairs(st, p, g, h, ms);
        let ps = cipher_pairs(p, g, h, ms, ys);
        assert(c == pairs_text(ps));
        // the marked text is never empty, so neither are the numbers
        assert(marked_bytes(text).len() >= 2);
        assert(ms.len() >= 1) by {
            vstd::arithmetic::div_mod::lemma_div_pos_is_pos(
                (marked_bytes(text).len() + k - 1) as int,
                k as int,
            );
        }
        lemma_pairs_tokens(ps);
        assert(trim_last_white_space(c) == c.drop_last());
        let toks = cipher_tokens(c);
        assert(toks == pairs_tokens(ps));
        lemma_pairs_token_facts(ps);
        assert(vstd::utf8::is_ascii_chars(c.drop_last())) by {
            lemma_pairs_text_ascii(ps);
        }
        assert(well_formed_cipher(c));
        let pn = plain_numbers(toks, p, x);
        assert forall|i: int| 0 <= i < ms.len() implies #[trigger] pn[i] == ms[i] by {
            lemma_pair_round_trip(p, g, x, ys[i], ms[i]);
            lemma_decimal(ps[i].0);
            lemma_decimal(ps[i].1);
        }
        assert(pn =~= ms);
    }
}

/// Decryption undoes encryption for every key pair over a prime: whatever
/// the generator's state, a text whose encoding fills whole chunks of
/// numbers below `p` is encrypted by [`encrypt`] with the public key to a
/// ciphertext that [`decrypt`] with the private key turns back into it.
pub proof fn lemma_key_pair_round_trip(
    text: Seq<char>,
    public: PublicKey,
    private: PrivateKey,
    st: PrngState,
)
    requires
        is_key_pair(public, private),
        is_prime(private.p@),
        public.bit_length / 8 >= 1,
        (marked_bytes(text).len() as int) % ((public.bit_length / 8) as int) == 0,
        forall|i: int|
            0 <= i < chunk_values(marked_bytes(text), (public.bit_length / 8) as nat).len()
                ==> #[trigger] chunk_values(marked_bytes(text), (public.bit_length / 8) as nat)[i]
                < private.p@,
    ensures
        encode_spec(text, public.bit_length as nat) matches Some(ms) && (encrypt_numbers(
            st,
            public.p@,
            public.g@,
            public.h@,
            ms,
        ).0 matches Some(c) ==> decrypt_spec(c, private.p@, private.x@, private.bit_length as nat)
            == Some(text)),
{
    lemma_encrypt_decrypt_round_trip(
        text,
        private.p@,
        private.g@,
        private.x@,
        public.bit_length as nat,
        st,
    );
}

} // verus!
