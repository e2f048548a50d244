use elgamal_wasm::bignat::BigNat;
use elgamal_wasm::cipher::{decrypt, encrypt};
use elgamal_wasm::codec::{decode_utf16, encode_utf16};
use elgamal_wasm::elgamal::generate_key_pair;
use elgamal_wasm::generic::{PrivateKey, PublicKey};
use elgamal_wasm::prng::{Prng, MAX_BUDGET};
use elgamal_wasm::KeyFormat;

const SEED: [u32; 8] = [
    3903800925, 2970875772, 2545702139, 2279902533, 3917580227, 2452829718, 2456858852, 30899,
];

#[test]
fn test_encrypt() {
    let pubkey = PublicKey::from_hex_str("0x747c85d7, 0x747c85d6, 0xb2040843, 32").unwrap();
    let mut rng = Prng::new_with_slice_seed(&SEED);
    let msg = String::from("message");
    let result = encrypt(&msg, &pubkey, &mut rng).unwrap();
    assert_eq!(
        "1954317782 623638905 1 1335914958 1954317782 1931457661 1 1068518055 ", result,
        "Encrypt result is not correct!"
    );
}

fn decimals(v: &[BigNat]) -> Vec<String> {
    v.iter().map(|x| x.to_decimal()).collect()
}

#[test]
fn encode_chunks_little_endian() {
    // FF FE 'Y' 00 'o' 00 -> chunks of three bytes
    let z = encode_utf16("Yo", 24).unwrap();
    assert_eq!(vec!["5897983".to_string(), "28416".to_string()], decimals(&z));
    let z = encode_utf16("a", 8).unwrap();
    assert_eq!(vec!["255", "254", "97", "0"], decimals(&z));
    // the last chunk is short
    let z = encode_utf16("a", 24).unwrap();
    assert_eq!(vec!["6422271", "0"], decimals(&z));
}

#[test]
fn encode_surrogate_pair() {
    let z = encode_utf16("\u{1F600}", 16).unwrap();
    assert_eq!(vec!["65279", "55357", "56832"], decimals(&z));
}

#[test]
fn encode_rejects_small_bit_length() {
    assert!(encode_utf16("abc", 7).is_none());
    assert!(decode_utf16(&vec![BigNat::from_u32(1)], 0).is_none());
}

#[test]
fn codec_round_trip() {
    for bits in [8u32, 16, 20] {
        for text in ["", "hello", "h\u{e9}llo w\u{f6}rld \u{1F600}"] {
            let z = encode_utf16(text, bits).unwrap();
            assert_eq!(Some(text.to_string()), decode_utf16(&z, bits));
        }
    }
    // four bytes per chunk: an odd number of UTF-16 units fills whole chunks
    let z = encode_utf16("hello", 32).unwrap();
    assert_eq!(Some("hello".to_string()), decode_utf16(&z, 32));
    // eight bytes per chunk
    let z = encode_utf16("hello w", 64).unwrap();
    assert_eq!(Some("hello w".to_string()), decode_utf16(&z, 64));
}

#[test]
fn codec_round_trip_needs_whole_chunks() {
    // three bytes per chunk and four bytes of text: the padding decodes as NUL
    let z = encode_utf16("a", 24).unwrap();
    assert_eq!(Some("a\u{0}".to_string()), decode_utf16(&z, 24));
}

#[test]
fn decode_requires_byte_order_mark() {
    let z = vec![BigNat::from_u32(97)];
    assert!(decode_utf16(&z, 16).is_none());
    // a lone surrogate is no UTF-16
    let z = vec![BigNat::from_u32(0xfeff), BigNat::from_u32(0xd800)];
    assert!(decode_utf16(&z, 16).is_none());
}

#[test]
fn encrypt_decrypt_round_trip() {
    // five bytes per chunk: texts of 4 and 9 units fill whole chunks, and
    // every chunk stays below p
    let (public, private) = generate_key_pair(&SEED, 40, 16, MAX_BUDGET).unwrap();
    let mut rng = Prng::new_with_slice_seed(&[1, 2, 3]);
    for text in ["mess", "message!!"] {
        let c = encrypt(text, &public, &mut rng).unwrap();
        assert_eq!(Some(text.to_string()), decrypt(&c, &private));
    }
}

fn small_private_key() -> PrivateKey {
    PrivateKey {
        p: BigNat::from_u32(1954317783),
        g: BigNat::from_u32(1954317782),
        x: BigNat::from_u32(5),
        bit_length: 32,
    }
}

#[test]
fn malformed_ciphertext_gives_nothing() {
    let key = small_private_key();
    assert!(decrypt("", &key).is_none());
    assert!(decrypt("1 2 3 ", &key).is_none());
    assert!(decrypt("1 2 3", &key).is_none());
    assert!(decrypt("1 x ", &key).is_none());
    assert!(decrypt("1  2 ", &key).is_none());
    assert!(decrypt("1 \u{e9} ", &key).is_none());
}

#[test]
fn decrypt_known_pair() {
    // with x = 5, c = 1 gives s = 1, so m = d
    let key = small_private_key();
    // FF FE 'a' 00 as one little-endian number
    let text = decrypt("1 6422271 ", &key);
    assert_eq!(Some("a".to_string()), text);
    let text = decrypt("1 6422271\n", &key);
    assert_eq!(Some("a".to_string()), text);
}

#[test]
fn encrypt_runs_out_of_budget() {
    let pubkey = PublicKey::from_hex_str("0x747c85d7, 0x747c85d6, 0xb2040843, 32").unwrap();
    let mut rng = Prng::with_budget(&SEED, 1);
    assert!(encrypt("message", &pubkey, &mut rng).is_none());
    assert_eq!(0, rng.budget());
}
