//! The text codec: a string becomes a sequence of numbers below `2^(8k)`,
//! `k = bit_length / 8`, and back.
//!
//! The text is written in UTF-16, little-endian, after the byte-order mark
//! `FF FE`; the bytes are cut into chunks of `k` (the last may be shorter)
//! and each chunk is read as a little-endian number.
use crate::bignat::BigNat;
use encoding::all::UTF_16LE;
use encoding::{DecoderTrap, EncoderTrap, Encoding};
use vstd::arithmetic::power::pow;
use vstd::prelude::*;

verus! {

/// The byte-order mark, as a character.
pub const BOM: char = '\u{feff}';

/// The UTF-16 code units of one character, little-endian.
pub open spec fn char_utf16le(c: char) -> Seq<u8> {
    let u = c as u32;
    if u < 0x10000 {
        seq![(u % 256) as u8, (u / 256) as u8]
    } else {
        let v = (u - 0x10000) as u32;
        let hi = (0xD800 + v / 1024) as u32;
        let lo = (0xDC00 + v % 1024) as u32;
        seq![(hi % 256) as u8, (hi / 256) as u8, (lo % 256) as u8, (lo / 256) as u8]
    }
}

/// The UTF-16LE form of a sequence of characters.
pub open spec fn utf16le(s: Seq<char>) -> Seq<u8>
    decreases s.len(),
{
    if s.len() == 0 {
        Seq::empty()
    } else {
        char_utf16le(s[0]) + utf16le(s.drop_first())
    }
}

/// The little-endian number that bytes denote.
pub open spec fn le_value(b: Seq<u8>) -> nat
    decreases b.len(),
{
    if b.len() == 0 {
        0
    } else {
        b[0] as nat + 256 * le_value(b.drop_first())
    }
}

/// The numbers of the chunks of `k` bytes of `b`; the last chunk may be short.
pub open spec fn chunk_values(b: Seq<u8>, k: nat) -> Seq<nat>
    recommends
        k > 0,
{
    Seq::new(
        ((b.len() + k - 1) / (k as int)) as nat,
        |i: int|
            le_value(
                b.subrange(
                    i * k,
                    if (i + 1) * k <= b.len() {
                        (i + 1) * k
                    } else {
                        b.len() as int
                    },
                ),
            ),
    )
}

/// The bytes that are encoded: the byte-order mark, then the UTF-16LE text.
pub open spec fn marked_bytes(text: Seq<char>) -> Seq<u8> {
    seq![0xFFu8, 0xFEu8] + utf16le(text)
}

/// The numbers that encode `text` for keys of `bit_length` bits; `None`
/// when `bit_length` is below 8 (no byte fits in a chunk).
pub open spec fn encode_spec(text: Seq<char>, bit_length: nat) -> Option<Seq<nat>> {
    let k = bit_length / 8;
    if k == 0 {
        None
    } else {
        Some(chunk_values(marked_bytes(text), k))
    }
}

/// The `k` little-endian bytes of `n` (higher bytes are dropped).
pub open spec fn le_bytes(n: nat, k: nat) -> Seq<u8> {
    Seq::new(k, |i: int| ((n / (pow(256, i as nat) as nat)) % 256) as u8)
}

/// The bytes of `k` each that numbers stand for, in order.
pub open spec fn unchunk(ints: Seq<nat>, k: nat) -> Seq<u8>
    decreases ints.len(),
{
    if ints.len() == 0 {
        Seq::empty()
    } else {
        unchunk(ints.drop_last(), k) + le_bytes(ints.last(), k)
    }
}

/// The text that numbers decode to for keys of `bit_length` bits: the
/// characters whose UTF-16LE form the bytes are, less a leading byte-order
/// mark. `None` when `bit_length` is below 8, the bytes are no UTF-16LE, or
/// the mark is missing.
pub open spec fn decode_spec(ints: Seq<nat>, bit_length: nat) -> Option<Seq<char>> {
    let k = bit_length / 8;
    let b = unchunk(ints, k);
    if k == 0 {
        None
    } else if exists|t: Seq<char>| utf16le(t) == b {
        let t = choose|t: Seq<char>| utf16le(t) == b;
        if t.len() > 0 && t[0] == BOM {
            Some(t.drop_first())
        } else {
            None
        }
    } else {
        None
    }
}

/// The numbers that a vector holds.
pub open spec fn nats_of(v: Seq<BigNat>) -> Seq<nat> {
    v.map_values(|x: BigNat| x@)
}

/// Relies on the strict UTF-16LE encoder of `encoding`: every character of
/// a `str` has a UTF-16 form, so it gives the code units of each character,
/// low byte first, and no error.
#[verifier::external_body]
fn utf16le_encode(text: &str) -> (r: Option<Vec<u8>>)
    ensures
        r is Some && r->0@ == utf16le(text@),
{
    UTF_16LE.encode(text, EncoderTrap::Strict).ok()
}

/// Relies on the strict UTF-16LE decoder of `encoding`: the UTF-16LE form
/// of characters decodes to them, and what it decodes re-encodes to the
/// input; ill-formed input is an error.
#[verifier::external_body]
fn utf16le_decode(bytes: &[u8]) -> (r: Option<String>)
    ensures
        forall|t: Seq<char>| utf16le(t) == bytes@ ==> r is Some && r->0@ == t,
        r is Some ==> utf16le(r->0@) == bytes@,
{
    UTF_16LE.decode(bytes, DecoderTrap::Strict).ok()
}

/// One byte appended to a little-endian number counts 256 to the power of
/// the length.
pub proof fn lemma_le_value_push(b: Seq<u8>, x: u8)
    ensures
        le_value(b.push(x)) as int == le_value(b) as int + (x as int) * pow(256, b.len()),
    decreases b.len(),
{
    if b.len() == 0 {
        assert(b.push(x).drop_first() =~= Seq::<u8>::empty());
        reveal_with_fuel(pow, 1);
        reveal_with_fuel(le_value, 2);
    } else {
        let rest = b.drop_first();
        assert(b.push(x).drop_first() =~= rest.push(x));
        lemma_le_value_push(rest, x);
        let q = pow(256, rest.len());
        vstd::arithmetic::power::lemma_pow_adds(256, 1, rest.len());
        vstd::arithmetic::power::lemma_pow1(256);
        assert(pow(256, b.len()) == 256 * q);
        let l = le_value(rest) as int;
        let lp = le_value(rest.push(x)) as int;
        assert(le_value(b.push(x)) as int == b[0] as int + 256 * lp);
        assert(le_value(b) as int == b[0] as int + 256 * l);
        assert(256 * (l + (x as int) * q) == 256 * l + (x as int) * (256 * q)) by (nonlinear_arith);
    }
}

/// Encodes `plaintext` as numbers for keys of `bit_length` bits: the
/// byte-order mark and the UTF-16LE text, in little-endian chunks of
/// `bit_length / 8` bytes. `None` when `bit_length` is below 8.
pub fn encode_utf16(plaintext: &str, bit_length: u32) -> (r: Option<Vec<BigNat>>)
    ensures
        match r {
            Some(z) => encode_spec(plaintext@, bit_length as nat) == Some(nats_of(z@)),
            None => encode_spec(plaintext@, bit_length as nat) is None,
        },
{
    let k: u32 = bit_length / 8;
    if k == 0 {
        return None;
    }
    let text_bytes = match utf16le_encode(plaintext) {
        Some(b) => b,
        None => {
            return None;
        },
    };
    let mut byte_array: Vec<u8> = Vec::new();
    byte_array.push(255);
    byte_array.push(254);
    let mut t: usize = 0;
    while t < text_bytes.len()
        invariant
            t <= text_bytes@.len(),
            byte_array@ == seq![0xFFu8, 0xFEu8] + text_bytes@.subrange(0, t as int),
        decreases text_bytes@.len() - t,
    {
        byte_array.push(text_bytes[t]);
        t = t + 1;
    }
    let ghost b = byte_array@;
    assert(b =~= marked_bytes(plaintext@));
    let base = BigNat::from_u32(2);
    let mut z: Vec<BigNat> = Vec::new();
    let mut cur = BigNat::from_u32(0);
    let mut j: u32 = 0;
    let mut idx: usize = 0;
    while idx < byte_array.len()
        invariant
            b == byte_array@,
            k >= 1,
            k <= bit_length / 8,
            idx <= b.len(),
            j < k,
            idx as int == z@.len() * k + j,
            cur@ == le_value(b.subrange(idx - j, idx as int)),
            base@ == 2,
            forall|i: int|
                0 <= i < z@.len() ==> #[trigger] z@[i]@ == le_value(
                    b.subrange(i * k, (i + 1) * k),
                ),
        decreases b.len() - idx,
    {
        let ghost old_cur = b.subrange(idx - j, idx as int);
        let weight = base.pow(8 * j);
        proof {
            assert(z@.len() * k >= 0) by (nonlinear_arith)
                requires
                    k >= 1,
            ;
            vstd::arithmetic::power::lemma_pow_multiplies(2, 8, j as nat);
            reveal_with_fuel(pow, 9);
            assert(pow(2, 8) == 256);
            assert(b.subrange(idx - j, idx + 1) =~= old_cur.push(b[idx as int]));
            lemma_le_value_push(old_cur, b[idx as int]);
        }
        let term = BigNat::from_u32(byte_array[idx] as u32).mul(&weight);
        cur = cur.add(&term);
        j = j + 1;
        idx = idx + 1;
        if j == k {
            proof {
                assert(idx as int == (z@.len() + 1) * k) by (nonlinear_arith)
                    requires
                        j as int == k as int,
                        idx as int == z@.len() * k + j,
                ;
            }
            z.push(cur);
            cur = BigNat::from_u32(0);
            j = 0;
        }
    }
    let ghost full = z@.len();
    if j > 0 {
        z.push(cur);
    }
    proof {
        let kk = k as int;
        let n = b.len() as int;
        let count = (n + kk - 1) / kk;
        if j > 0 {
            assert(n + kk - 1 == (full + 1) * kk + (j - 1)) by (nonlinear_arith)
                requires
                    n == full * kk + j,
            ;
            vstd::arithmetic::div_mod::lemma_fundamental_div_mod_converse(
                n + kk - 1,
                kk,
                (full + 1) as int,
                (j - 1) as int,
            );
        } else {
            vstd::arithmetic::div_mod::lemma_fundamental_div_mod_converse(
                n + kk - 1,
                kk,
                full as int,
                (kk - 1) as int,
            );
        }
        assert(z@.len() == count);
        assert forall|i: int| 0 <= i < z@.len() implies #[trigger] nats_of(z@)[i] == chunk_values(
            b,
            k as nat,
        )[i] by {
            if i < full {
                assert((i + 1) * kk <= full * kk) by (nonlinear_arith)
                    requires
                        i < full,
                        kk >= 1,
                ;
            } else {
                assert(i * kk == full * kk);
                assert((i + 1) * kk > n) by (nonlinear_arith)
                    requires
                        i == full,
                        n == full * kk + j,
                        j < kk,
                ;
            }
        }
        assert(nats_of(z@) =~= chunk_values(b, k as nat));
    }
    Some(z)
}

/// Decodes numbers made by [`encode_utf16`] back to text: each number gives
/// `bit_length / 8` little-endian bytes, the bytes are read as UTF-16LE,
/// and the leading byte-order mark is dropped. `None` when `bit_length` is
/// below 8, the bytes are no UTF-16LE, or the mark is missing.
pub fn decode_utf16(encoded_ints: &Vec<BigNat>, bit_length: u32) -> (r: Option<String>)
    ensures
        match r {
            Some(s) => decode_spec(nats_of(encoded_ints@), bit_length as nat) == Some(s@),
            None => decode_spec(nats_of(encoded_ints@), bit_length as nat) is None,
        },
{
    let k: u32 = bit_length / 8;
    if k == 0 {
        return None;
    }
    let ghost ints = nats_of(encoded_ints@);
    let base = BigNat::from_u32(2);
    let byte_base = BigNat::from_u32(256);
    let mut byte_array: Vec<u8> = Vec::new();
    let mut n: usize = 0;
    while n < encoded_ints.len()
        invariant
            k >= 1,
            k == bit_length / 8,
            n <= encoded_ints@.len(),
            ints == nats_of(encoded_ints@),
            base@ == 2,
            byte_base@ == 256,
            byte_array@ == unchunk(ints.subrange(0, n as int), k as nat),
        decreases encoded_ints@.len() - n,
    {
        let num = &encoded_ints[n];
        let ghost start = byte_array@;
        let mut i: u32 = 0;
        while i < k
            invariant
                k >= 1,
                k == bit_length / 8,
                i <= k,
                base@ == 2,
                byte_base@ == 256,
                byte_array@ == start + le_bytes(num@, k as nat).subrange(0, i as int),
            decreases k - i,
        {
            let weight = base.pow(8 * i);
            proof {
                vstd::arithmetic::power::lemma_pow_multiplies(2, 8, i as nat);
                reveal_with_fuel(pow, 9);
                assert(pow(2, 8) == 256);
                vstd::arithmetic::power::lemma_pow_positive(256, i as nat);
            }
            let letter = num.div(&weight).mod_floor(&byte_base).low_u32() as u8;
            byte_array.push(letter);
            proof {
                assert(byte_array@ =~= start + le_bytes(num@, k as nat).subrange(0, i + 1));
            }
            i = i + 1;
        }
        proof {
            let prefix = ints.subrange(0, n as int + 1);
            assert(prefix.drop_last() =~= ints.subrange(0, n as int));
            assert(le_bytes(num@, k as nat).subrange(0, k as int) =~= le_bytes(num@, k as nat));
        }
        n = n + 1;
    }
    proof {
        assert(ints.subrange(0, n as int) =~= ints);
    }
    let text = match utf16le_decode(byte_array.as_slice()) {
        Some(t) => t,
        None => {
            return None;
        },
    };
    let st = text.as_str();
    let len = st.unicode_len();
    if len == 0 {
        return None;
    }
    if st.get_char(0) != BOM {
        return None;
    }
    let rest = st.substring_char(1, len);
    proof {
        assert(rest@ =~= text@.drop_first());
    }
    Some(rest.to_owned())
}

/// The little-endian bytes of the number that bytes denote are those bytes.
pub proof fn lemma_le_bytes_of_value(c: Seq<u8>)
    ensures
        le_bytes(le_value(c), c.len()) == c,
    decreases c.len(),
{
    if c.len() > 0 {
        let rest = c.drop_first();
        lemma_le_bytes_of_value(rest);
        let v = le_value(c);
        let w = le_value(rest);
        assert(v == c[0] as nat + 256 * w);
        assert forall|i: int| 0 <= i < c.len() implies #[trigger] le_bytes(v, c.len())[i] == c[i] by {
            vstd::arithmetic::power::lemma_pow_positive(256, i as nat);
            if i == 0 {
                reveal_with_fuel(pow, 1);
                assert(v / 1 == v);
                assert((c[0] as nat + 256 * w) % 256 == c[0] as nat) by (nonlinear_arith);
            } else {
                vstd::arithmetic::power::lemma_pow_adds(256, 1, (i - 1) as nat);
                vstd::arithmetic::power::lemma_pow1(256);
                vstd::arithmetic::power::lemma_pow_positive(256, (i - 1) as nat);
                let q = pow(256, (i - 1) as nat);
                assert(pow(256, i as nat) == 256 * q);
                vstd::arithmetic::div_mod::lemma_div_denominator(v as int, 256, q);
                assert((c[0] as nat + 256 * w) / 256 == w) by (nonlinear_arith);
                assert(le_bytes(w, rest.len())[i - 1] == rest[i - 1]);
            }
        }
        assert(le_bytes(v, c.len()) =~= c);
    }
}

/// Bytes cut into whole chunks and put back together are the same bytes.
pub proof fn lemma_unchunk_chunks(b: Seq<u8>, k: nat)
    requires
        k > 0,
        (b.len() as int) % (k as int) == 0,
    ensures
        unchunk(chunk_values(b, k), k) == b,
    decreases b.len(),
{
    let kk = k as int;
    let len = b.len() as int;
    let n = len / kk;
    vstd::arithmetic::div_mod::lemma_fundamental_div_mod(len, kk);
    if len == 0 {
        assert(chunk_values(b, k).len() == 0) by {
            vstd::arithmetic::div_mod::lemma_fundamental_div_mod_converse(kk - 1, kk, 0, kk - 1);
        }
        assert(b =~= Seq::<u8>::empty());
    } else {
        assert(len == n * kk);
        assert(n >= 1) by (nonlinear_arith)
            requires
                len == n * kk,
                len > 0,
                kk > 0,
        ;
        let front = b.subrange(0, len - kk);
        let last = b.subrange(len - kk, len);
        assert(len - kk == (n - 1) * kk) by (nonlinear_arith)
            requires
                len == n * kk,
        ;
        vstd::arithmetic::div_mod::lemma_fundamental_div_mod_converse(len - kk, kk, n - 1, 0);
        lemma_unchunk_chunks(front, k);
        vstd::arithmetic::div_mod::lemma_fundamental_div_mod_converse(len + kk - 1, kk, n, kk - 1);
        vstd::arithmetic::div_mod::lemma_fundamental_div_mod_converse(
            len - kk + kk - 1,
            kk,
            n - 1,
            kk - 1,
        );
        let cv = chunk_values(b, k);
        let cf = chunk_values(front, k);
        assert(cv.len() == n);
        assert(cf.len() == n - 1);
        assert forall|i: int| 0 <= i < n - 1 implies #[trigger] cv[i] == cf[i] by {
            assert(0 <= i * kk && (i + 1) * kk <= (n - 1) * kk) by (nonlinear_arith)
                requires
                    0 <= i < n - 1,
                    kk > 0,
            ;
            assert((i + 1) * kk <= len - kk);
            assert((i + 1) * kk == i * kk + kk) by (nonlinear_arith);
            assert(front.len() == len - kk);
            assert forall|j: int| 0 <= j < kk implies #[trigger] b.subrange(i * kk, (i + 1) * kk)[j]
                == front.subrange(i * kk, (i + 1) * kk)[j] by {
                assert(i * kk + j < len - kk);
            }
            assert(b.subrange(i * kk, (i + 1) * kk) =~= front.subrange(i * kk, (i + 1) * kk));
        }
        assert(cv[n - 1] == le_value(last)) by {
            assert((n - 1) * kk == len - kk);
            assert(((n - 1) + 1) * kk == len) by (nonlinear_arith)
                requires
                    len == n * kk,
            ;
        }
        assert(cv.drop_last() =~= cf);
        lemma_le_bytes_of_value(last);
        assert(front + last =~= b);
    }
}

/// The UTF-16 code unit made of the bytes at `i` and `i + 1`.
pub open spec fn unit_at(b: Seq<u8>, i: int) -> nat {
    b[i] as nat + 256 * (b[i + 1] as nat)
}

/// What the first code unit of a character's UTF-16LE form tells: a unit
/// outside the surrogates is the character itself, a leading surrogate
/// starts a pair.
pub proof fn lemma_char_units(c: char)
    ensures
        ({
            let e = char_utf16le(c);
            let u = c as u32;
            &&& e.len() >= 2
            &&& u < 0x10000 ==> e.len() == 2 && unit_at(e, 0) == u && !(0xD800 <= unit_at(e, 0)
                <= 0xDFFF)
            &&& u >= 0x10000 ==> e.len() == 4 && 0xD800 <= unit_at(e, 0) <= 0xDBFF && 0xDC00
                <= unit_at(e, 2) <= 0xDFFF && u == 0x10000 + (unit_at(e, 0) - 0xD800) * 1024 + (
            unit_at(e, 2) - 0xDC00)
        }),
{
    broadcast use vstd::utf8::char_is_scalar;

    let u = c as u32;
    assert(vstd::utf8::is_scalar(u));
    if u >= 0x10000 {
        let v = (u - 0x10000) as u32;
        assert(v < 0x100000);
        let hi = (0xD800 + v / 1024) as u32;
        let lo = (0xDC00 + v % 1024) as u32;
        assert(hi < 0x10000 && lo < 0x10000);
        assert((hi % 256) as u8 as nat + 256 * ((hi / 256) as u8 as nat) == hi);
        assert((lo % 256) as u8 as nat + 256 * ((lo / 256) as u8 as nat) == lo);
    } else {
        assert((u % 256) as u8 as nat + 256 * ((u / 256) as u8 as nat) == u);
    }
}

/// Two sequences of characters with the same UTF-16LE form are equal.
pub proof fn lemma_utf16le_injective(s: Seq<char>, t: Seq<char>)
    requires
        utf16le(s) == utf16le(t),
    ensures
        s == t,
    decreases s.len(),
{
    if s.len() == 0 {
        if t.len() > 0 {
            lemma_char_units(t[0]);
            assert(utf16le(t) == char_utf16le(t[0]) + utf16le(t.drop_first()));
            assert(utf16le(s) =~= Seq::<u8>::empty());
            assert(utf16le(t).len() >= 2);
        }
        assert(s =~= t);
    } else {
        lemma_char_units(s[0]);
        if t.len() == 0 {
            assert(utf16le(s) == char_utf16le(s[0]) + utf16le(s.drop_first()));
            assert(utf16le(t) =~= Seq::<u8>::empty());
            assert(utf16le(s).len() >= 2);
        } else {
            lemma_char_units(t[0]);
            let es = char_utf16le(s[0]);
            let et = char_utf16le(t[0]);
            let b = utf16le(s);
            assert(b == es + utf16le(s.drop_first()));
            assert(b == et + utf16le(t.drop_first()));
            assert(unit_at(es, 0) == unit_at(b, 0));
            assert(unit_at(et, 0) == unit_at(b, 0));
            let us = s[0] as u32;
            let ut = t[0] as u32;
            if us < 0x10000 {
                assert(ut < 0x10000);
                assert(unit_at(es, 0) == us);
                assert(unit_at(et, 0) == ut);
            } else {
                assert(ut >= 0x10000);
                assert(unit_at(es, 2) == unit_at(b, 2));
                assert(unit_at(et, 2) == unit_at(b, 2));
                assert(us == 0x10000 + (unit_at(b, 0) - 0xD800) * 1024 + (unit_at(b, 2) - 0xDC00));
                assert(ut == 0x10000 + (unit_at(b, 0) - 0xD800) * 1024 + (unit_at(b, 2) - 0xDC00));
            }
            assert(s[0] as u32 == t[0] as u32);
            vstd::utf8::char_u32_cast(s[0], us);
            vstd::utf8::char_u32_cast(t[0], ut);
            assert(s[0] == t[0]);
            assert(es == et);
            let m = es.len() as int;
            assert(utf16le(s.drop_first()) =~= b.subrange(m, b.len() as int));
            assert(utf16le(t.drop_first()) =~= b.subrange(m, b.len() as int));
            lemma_utf16le_injective(s.drop_first(), t.drop_first());
            assert(s =~= seq![s[0]] + s.drop_first());
            assert(t =~= seq![t[0]] + t.drop_first());
        }
    }
}

/// Decoding undoes encoding: for chunks of `k = bit_length / 8 >= 1` bytes
/// that the marked text fills exactly, the numbers that encode a text decode
/// to it.
pub proof fn lemma_codec_round_trip(text: Seq<char>, bit_length: nat)
    requires
        bit_length / 8 >= 1,
        (marked_bytes(text).len() as int) % ((bit_length / 8) as int) == 0,
    ensures
        encode_spec(text, bit_length) matches Some(z) && decode_spec(z, bit_length) == Some(text),
{
    let k = bit_length / 8;
    let b = marked_bytes(text);
    let z = chunk_values(b, k);
    lemma_unchunk_chunks(b, k);
    let marked = seq![BOM] + text;
    assert(marked.drop_first() =~= text);
    assert(char_utf16le(BOM) =~= seq![0xFFu8, 0xFEu8]);
    assert(utf16le(marked) =~= b);
    let t = choose|t: Seq<char>| utf16le(t) == b;
    lemma_utf16le_injective(t, marked);
}

} // verus!
