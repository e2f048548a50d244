use elgamal_wasm::bignat::BigNat;
use elgamal_wasm::elgamal::{generate_key_pair, generate_pub_key};
use elgamal_wasm::generic::{PublicKey, RawKey, RawPublicKey, Seed};
use elgamal_wasm::prng::{Prng, MAX_BUDGET};
use elgamal_wasm::{KeyFormat, KeyGenerator};
use parity_scale_codec::{Decode, Encode};
use sp_core::U256;

const SEED: [u32; 8] = [
    3903800925, 2970875772, 2545702139, 2279902533, 3917580227, 2452829718, 2456858852, 30899,
];

fn to_u256(words: &[u32; 8]) -> U256 {
    let mut bytes = [0u8; 32];
    for (i, w) in words.iter().enumerate() {
        bytes[4 * i..4 * i + 4].copy_from_slice(&w.to_le_bytes());
    }
    U256::from_little_endian(&bytes)
}

fn from_u256(v: &U256) -> [u32; 8] {
    let bytes = v.to_little_endian();
    let mut words = [0u32; 8];
    for i in 0..8 {
        words[i] = u32::from_le_bytes([
            bytes[4 * i],
            bytes[4 * i + 1],
            bytes[4 * i + 2],
            bytes[4 * i + 3],
        ]);
    }
    words
}

#[test]
fn test_encode_raw_pub_key() {
    // test serialization and deserialization of public keys.
    let pubkey = PublicKey::from_hex_str("0x747c85d7, 0x747c85d6, 0xb2040843, 32").unwrap();
    let raw_key = pubkey.clone().to_raw().unwrap();
    let encoded = (to_u256(&raw_key.p), to_u256(&raw_key.g), to_u256(&raw_key.h), raw_key.bit_length)
        .encode();
    let decoded = <(U256, U256, U256, u32)>::decode(&mut encoded.as_slice()).unwrap();
    let decoded = RawPublicKey {
        p: from_u256(&decoded.0),
        g: from_u256(&decoded.1),
        h: from_u256(&decoded.2),
        bit_length: decoded.3,
    };
    let new_key = PublicKey::from_raw(decoded);
    assert_eq!(pubkey.display(), new_key.display());
}

#[test]
fn test_string_to_vec_u32() {
    let num_str = "833050814021254693158343911234888353695402778102174580258852673738983005";
    let big_num = BigNat::from_str_radix(num_str, 10).unwrap();
    let num_vec = big_num.to_u32_digits();
    assert_eq!(SEED.len(), num_vec.len());
    assert_eq!(SEED[0], num_vec[0]);
}

#[test]
fn test_rng() {
    let mut rng = Prng::new_with_slice_seed(&SEED);
    let random_result = rng.next_u32();
    assert_eq!(3706558615, random_result);
}

#[test]
fn test_public_key_generation() {
    let public_key_result = generate_pub_key(&SEED, 20, 32, MAX_BUDGET).unwrap();
    let pubkey = public_key_result.0;
    assert_eq!("(754739, 8182, 405406)".to_owned(), pubkey.display());
    // yield a new key from existing key.
    let new_key = pubkey.yield_pubkey(32, MAX_BUDGET).unwrap();
    assert_eq!("(3934240439, 1414000972, 1414000971)".to_owned(), new_key.display());
}

#[test]
fn generation_is_deterministic() {
    let a = generate_pub_key(&SEED, 24, 16, MAX_BUDGET).unwrap().0;
    let b = generate_pub_key(&SEED, 24, 16, MAX_BUDGET).unwrap().0;
    assert_eq!(a.display(), b.display());
}

#[test]
fn generated_key_is_safe_prime_with_root() {
    let k = generate_pub_key(&SEED, 20, 32, MAX_BUDGET).unwrap().0;
    let one = BigNat::from_u32(1);
    let two = BigNat::from_u32(2);
    let p_minus_1 = k.p.sub(&one);
    let half = p_minus_1.div(&two);
    let quot = p_minus_1.div(&half);
    assert!(!k.g.modpow(&half, &k.p).eq(&one));
    assert!(!k.g.modpow(&quot, &k.p).eq(&one));
    let mut rng = Prng::new_with_slice_seed(&[7]);
    assert_eq!(
        Some(true),
        elgamal_wasm::utils::solovay_strassen(&half, 32, &mut rng)
    );
}

#[test]
fn small_budget_runs_out() {
    assert!(generate_pub_key(&SEED, 20, 32, 3).is_none());
}

#[test]
fn seed_slice_of_key() {
    let k = PublicKey::from_hex_str("0xffffffff, 0x1, 0x0, 32").unwrap();
    assert_eq!(vec![0u32, 1], k.yield_seed_slice());
    let zero = PublicKey::from_hex_str("0x0, 0x0, 0x0, 32").unwrap();
    assert!(zero.yield_seed_slice().is_empty());
    assert!(zero.yield_pubkey(32, MAX_BUDGET).is_none());
}

#[test]
fn raw_key_ratchet_matches_public_key_ratchet() {
    let k = generate_pub_key(&SEED, 20, 32, MAX_BUDGET).unwrap().0;
    let raw = k.clone().to_raw().unwrap();
    let next_raw = raw.yield_pubkey(32, MAX_BUDGET).unwrap();
    assert_eq!(
        "(3934240439, 1414000972, 1414000971)",
        PublicKey::from_raw(next_raw).display()
    );
}

#[test]
fn to_raw_rejects_values_over_256_bits() {
    let big = BigNat::from_u32(2).pow(256);
    let k = PublicKey { p: big, g: BigNat::from_u32(2), h: BigNat::from_u32(3), bit_length: 32 };
    assert!(k.to_raw().is_none());
    let fits = BigNat::from_u32(2).pow(256).sub(&BigNat::from_u32(1));
    let k = PublicKey { p: fits, g: BigNat::from_u32(2), h: BigNat::from_u32(3), bit_length: 32 };
    let raw = k.to_raw().unwrap();
    assert_eq!([u32::MAX; 8], raw.p);
    assert_eq!(2, raw.g[0]);
}

#[test]
fn key_string_forms() {
    let k = PublicKey::from_hex_str("0x747c85d7, 0x747c85d6, 0xb2040843, 32").unwrap();
    assert_eq!("(1954317783, 1954317782, 2986608707)", k.display());
    assert_eq!(32, k.bit_length);
    let k = PublicKey::from_hex_str("ff, 0xA, 0x1, 8, extra").unwrap();
    assert_eq!("(255, 10, 1)", k.display());
    assert!(PublicKey::from_hex_str("0x1, 0x2, 0x3").is_none());
    assert!(PublicKey::from_hex_str("0x1, 0x2, 0xg, 8").is_none());
    assert!(PublicKey::from_hex_str("0x1, 0x2, 0x3, 4294967296").is_none());
    assert!(PublicKey::from_hex_str("0x1,0x2,0x3,8").is_none());
    assert!(PublicKey::from_hex_str("0x, 0x2, 0x3, 8").is_none());
}

#[test]
fn key_pair_has_matching_h() {
    let (public, private) = generate_key_pair(&SEED, 32, 16, MAX_BUDGET).unwrap();
    assert_eq!(public.h.to_decimal(), private.g.modpow(&private.x, &private.p).to_decimal());
    assert_eq!(public.p.to_decimal(), private.p.to_decimal());
}
