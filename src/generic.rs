//! The key types and the traits they implement.
use crate::bignat::{decimal, BigNat};
use vstd::arithmetic::power::pow;
use vstd::prelude::*;

verus! {

/// A public key as fixed-width words: `p`, `g` and `h` each as eight
/// 32-bit limbs, least significant first (256 bits, little-endian).
#[derive(Clone, Copy, Debug)]
pub struct RawPublicKey {
    pub p: [u32; 8],
    pub g: [u32; 8],
    pub h: [u32; 8],
    pub bit_length: u32,
}

/// A private key: the prime `p`, the primitive root `g` and the secret
/// exponent `x`.
#[derive(Clone, Debug)]
pub struct PrivateKey {
    pub p: BigNat,
    pub g: BigNat,
    pub x: BigNat,
    pub bit_length: u32,
}

/// A public key: the prime `p`, the primitive root `g` and `h = g^x mod p`.
#[derive(Clone, Debug)]
pub struct PublicKey {
    pub p: BigNat,
    pub g: BigNat,
    pub h: BigNat,
    pub bit_length: u32,
}

/// `public` and `private` form a key pair: they share `p`, `g` and the bit
/// length, `g` lies in `[2, p-1]`, the secret `x` in `[1, p-2]`, and
/// `h = g^x mod p`.
pub open spec fn is_key_pair(public: PublicKey, private: PrivateKey) -> bool {
    &&& public.p@ == private.p@
    &&& public.g@ == private.g@
    &&& public.bit_length == private.bit_length
    &&& 2 <= private.g@ <= private.p@ - 1
    &&& 1 <= private.x@ <= private.p@ - 2
    &&& public.h@ == pow(private.g@ as int, private.x@) % (private.p@ as int)
}

impl PublicKey {
    /// The text `(p, g, h)`, each number in decimal.
    pub fn display(&self) -> (r: String)
        ensures
            r@ == seq!['('] + decimal(self.p@) + seq![',', ' '] + decimal(self.g@) + seq![
                ',',
                ' ',
            ] + decimal(self.h@) + seq![')'],
    {
        proof {
            reveal_strlit("(");
            reveal_strlit(", ");
            reveal_strlit(")");
        }
        let mut r = String::new();
        r.append("(");
        r.append(self.p.to_decimal().as_str());
        r.append(", ");
        r.append(self.g.to_decimal().as_str());
        r.append(", ");
        r.append(self.h.to_decimal().as_str());
        r.append(")");
        assert(r@ =~= seq!['('] + decimal(self.p@) + seq![',', ' '] + decimal(self.g@) + seq![
            ',',
            ' ',
        ] + decimal(self.h@) + seq![')']);
        r
    }
}

/// Conversion of a key to and from its fixed-width form.
pub trait RawKey: Sized {
    /// The fixed-width form; `None` when a part does not fit in 256 bits.
    fn to_raw(self) -> Option<RawPublicKey>;

    /// The key that a fixed-width form holds.
    fn from_raw(raw_key: RawPublicKey) -> Self;
}

/// Seed words derived from a key.
pub trait Seed {
    fn yield_seed_slice(&self) -> Vec<u32>;
}

} // verus!
