//! ElGamal public-key encryption over arbitrary-precision integers:
//! deterministic key generation from a seed, the Solovay-Strassen
//! primality test, a text codec, and the encrypt/decrypt transform.
pub mod bignat;
pub mod cipher;
pub mod codec;
pub mod elgamal;
pub mod generic;
pub mod number_theory;
pub mod prng;
pub mod text;
pub mod utils;

use crate::bignat::{all_digits, is_decimal, limbs_value, radix_value, u32_digits, BigNat};
use crate::elgamal::{generate_pub_key, keygen_spec};
use crate::generic::{PublicKey, RawKey, RawPublicKey, Seed};
use crate::text::{is_digits, split_ascii, split_by, views_of};
use vstd::arithmetic::power::pow;
use vstd::prelude::*;

verus! {

/// Rounds of the primality test used when a key yields the next one.
pub const KEY_CONFIDENCE: u32 = 16;

/// The key ratchet: the key generated from the limbs of `sum`, the sum
/// `p + g + h` of the previous key, with [`KEY_CONFIDENCE`] rounds. `None`
/// when the sum is zero (no seed words) or a budget runs out.
pub open spec fn ratchet_spec(sum: nat, bit_length: nat, budget: nat) -> Option<(nat, nat, nat)> {
    let seed = u32_digits(sum);
    if seed.len() == 0 {
        None
    } else {
        match keygen_spec(seed, bit_length, KEY_CONFIDENCE as nat, budget) {
            Some(k) => Some((k.0, k.1, k.2)),
            None => None,
        }
    }
}

/// Keys that yield the next key of a chain.
pub trait KeyGenerator: Sized {
    /// Uses this key's own data as seed and generates a new public key of
    /// `bit_length` bits, with at most `budget` words drawn per generator.
    fn yield_pubkey(&self, bit_length: u32, budget: u64) -> Option<Self>
        requires
            bit_length >= 3,
    ;
}

impl KeyGenerator for PublicKey {
    fn yield_pubkey(&self, bit_length: u32, budget: u64) -> (r: Option<Self>)
        ensures
            match r {
                Some(k) => ratchet_spec(self.p@ + self.g@ + self.h@, bit_length as nat, budget as nat)
                    == Some((k.p@, k.g@, k.h@)) && k.bit_length == bit_length,
                None => ratchet_spec(self.p@ + self.g@ + self.h@, bit_length as nat, budget as nat)
                    is None,
            },
    {
        let seed = self.yield_seed_slice();
        if seed.len() == 0 {
            return None;
        }
        match generate_pub_key(seed.as_slice(), bit_length, KEY_CONFIDENCE, budget) {
            Some(kr) => Some(kr.0),
            None => None,
        }
    }
}

impl KeyGenerator for RawPublicKey {
    fn yield_pubkey(&self, bit_length: u32, budget: u64) -> (r: Option<Self>)
        ensures
            ({
                let sum = limbs_value(self.p@) + limbs_value(self.g@) + limbs_value(self.h@);
                match r {
                    Some(k) => ratchet_spec(sum, bit_length as nat, budget as nat) == Some(
                        (limbs_value(k.p@), limbs_value(k.g@), limbs_value(k.h@)),
                    ) && k.bit_length == bit_length,
                    None => match ratchet_spec(sum, bit_length as nat, budget as nat) {
                        Some(t) => t.0 >= pow(0x1_0000_0000, 8) || t.1 >= pow(0x1_0000_0000, 8)
                            || t.2 >= pow(0x1_0000_0000, 8),
                        None => true,
                    },
                }
            }),
    {
        let key = PublicKey::from_raw(*self);
        match key.yield_pubkey(bit_length, budget) {
            Some(next) => next.to_raw(),
            None => None,
        }
    }
}

/// A hexadecimal field of a key string without its `0x` prefix, if any.
pub open spec fn hex_body(f: Seq<char>) -> Seq<char> {
    if f.len() >= 2 && f[0] == '0' && f[1] == 'x' {
        f.subrange(2, f.len() as int)
    } else {
        f
    }
}

/// A hexadecimal field holds digits of base 16 after its prefix.
pub open spec fn is_hex_field(f: Seq<char>) -> bool {
    hex_body(f).len() > 0 && all_digits(hex_body(f), 16)
}

/// The key that a key string `"0x<p>, 0x<g>, 0x<h>, <bit_length>"` describes,
/// as `(p, g, h, bit_length)`: the string is ASCII, it has at least four
/// fields separated by `", "` (more are ignored), the first three are
/// hexadecimal and the fourth a decimal number below `2^32`.
pub open spec fn key_string_spec(s: Seq<char>) -> Option<(nat, nat, nat, nat)> {
    let f = split_by(s, seq![',', ' ']);
    if vstd::utf8::is_ascii_chars(s) && f.len() >= 4 && is_hex_field(f[0]) && is_hex_field(f[1])
        && is_hex_field(f[2]) && is_decimal(f[3]) && radix_value(f[3], 10) < 0x1_0000_0000 {
        Some(
            (
                radix_value(hex_body(f[0]), 16),
                radix_value(hex_body(f[1]), 16),
                radix_value(hex_body(f[2]), 16),
                radix_value(f[3], 10),
            ),
        )
    } else {
        None
    }
}

/// Reads a hexadecimal field of a key string.
fn parse_hex_field(f: &str) -> (r: Option<BigNat>)
    ensures
        match r {
            Some(v) => is_hex_field(f@) && v@ == radix_value(hex_body(f@), 16),
            None => !is_hex_field(f@),
        },
{
    let n = f.unicode_len();
    let body = if n >= 2 && f.get_char(0) == '0' && f.get_char(1) == 'x' {
        f.substring_char(2, n)
    } else {
        f
    };
    assert(body@ == hex_body(f@));
    if !is_digits(body, 16) {
        return None;
    }
    BigNat::from_str_radix(body, 16)
}

/// Keys read from a text form.
pub trait KeyFormat: Sized {
    /// The key that `key_str` describes; `None` when it is malformed.
    fn from_hex_str(key_str: &str) -> Option<Self>;
}

impl KeyFormat for PublicKey {
    /// Reads `"0x<p>, 0x<g>, 0x<h>, <bit_length>"`, as in
    /// `"0x747c85d7, 0x747c85d6, 0xb2040843, 32"`.
    fn from_hex_str(key_str: &str) -> (r: Option<PublicKey>)
        ensures
            match r {
                Some(k) => key_string_spec(key_str@) == Some(
                    (k.p@, k.g@, k.h@, k.bit_length as nat),
                ),
                None => key_string_spec(key_str@) is None,
            },
    {
        if !key_str.is_ascii() {
            return None;
        }
        proof {
            reveal_strlit(", ");
            assert(", "@ =~= seq![',', ' ']);
        }
        let keys = split_ascii(key_str, ", ");
        let ghost f = views_of(keys@);
        if keys.len() < 4 {
            return None;
        }
        assert(keys@[0]@ == f[0] && keys@[1]@ == f[1] && keys@[2]@ == f[2] && keys@[3]@ == f[3]);
        let p = match parse_hex_field(keys[0].as_str()) {
            Some(v) => v,
            None => {
                return None;
            },
        };
        let g = match parse_hex_field(keys[1].as_str()) {
            Some(v) => v,
            None => {
                return None;
            },
        };
        let h = match parse_hex_field(keys[2].as_str()) {
            Some(v) => v,
            None => {
                return None;
            },
        };
        if !is_digits(keys[3].as_str(), 10) {
            return None;
        }
        let bits = match BigNat::from_str_radix(keys[3].as_str(), 10) {
            Some(v) => v,
            None => {
                return None;
            },
        };
        let limit = BigNat::from_u32(2).pow(32);
        proof {
            reveal_with_fuel(pow, 33);
        }
        if !bits.lt(&limit) {
            return None;
        }
        Some(PublicKey { p, g, h, bit_length: bits.low_u32() })
    }
}

} // verus!
