use elgamal_wasm::bignat::BigNat;
use elgamal_wasm::prng::Prng;
use elgamal_wasm::utils::{
    find_h_bigint, find_primitive_root_bigint, gen_bigint_range, jacobi, pow_bigint,
    random_prime_bigint, solovay_strassen,
};

fn n(v: u32) -> BigNat {
    BigNat::from_u32(v)
}

#[test]
fn arithmetic_wrappers() {
    assert_eq!("12", n(5).add(&n(7)).to_decimal());
    assert_eq!("2", n(7).sub(&n(5)).to_decimal());
    assert_eq!("35", n(5).mul(&n(7)).to_decimal());
    assert_eq!("3", n(22).div(&n(7)).to_decimal());
    assert_eq!("1", n(22).mod_floor(&n(7)).to_decimal());
    assert_eq!("4", n(3).modpow(&n(4), &n(7)).to_decimal());
    assert_eq!("1024", n(2).pow(10).to_decimal());
    assert_eq!("6", n(12).gcd(&n(18)).to_decimal());
    assert_eq!("5", n(0).gcd(&n(5)).to_decimal());
    assert_eq!(4, n(9).bits());
    assert_eq!(0, n(0).bits());
    assert!(n(3).lt(&n(4)));
    assert!(!n(4).lt(&n(4)));
    assert!(n(4).eq(&n(4)));
    assert_eq!("4294967296", n(1).add(&n(u32::MAX)).to_decimal());
    assert_eq!(vec![0u32, 1], n(1).add(&n(u32::MAX)).to_u32_digits());
    assert_eq!("255", BigNat::from_str_radix("ff", 16).unwrap().to_decimal());
    assert!(BigNat::from_str_radix("", 10).is_none());
}

#[test]
fn jacobi_values() {
    assert_eq!(1, jacobi(&n(0), &n(1)));
    assert_eq!(0, jacobi(&n(0), &n(3)));
    assert_eq!(1, jacobi(&n(1), &n(9)));
    assert_eq!(1, jacobi(&n(2), &n(7)));
    assert_eq!(-1, jacobi(&n(2), &n(3)));
    assert_eq!(0, jacobi(&n(2), &n(4)));
    // 5 is no square mod 3, 4 is a square
    assert_eq!(-1, jacobi(&n(5), &n(3)));
    assert_eq!(1, jacobi(&n(4), &n(7)));
    assert_eq!(-1, jacobi(&n(3), &n(7)));
    assert_eq!(-1, jacobi(&n(1001), &n(9907)));
    assert_eq!(0, jacobi(&n(6), &n(9)));
}

#[test]
fn solovay_strassen_verdicts() {
    let mut rng = Prng::new_with_slice_seed(&[42]);
    for p in [3u32, 5, 7, 11, 13, 101, 7919, 754739] {
        assert_eq!(Some(true), solovay_strassen(&n(p), 20, &mut rng), "{}", p);
    }
    for c in [9u32, 15, 21, 561, 1105, 7917] {
        assert_eq!(Some(false), solovay_strassen(&n(c), 20, &mut rng), "{}", c);
    }
}

#[test]
fn ranged_sampling_stays_in_range() {
    let mut rng = Prng::new_with_slice_seed(&[9, 9]);
    for _ in 0..200 {
        let v = gen_bigint_range(&mut rng, &n(10), &n(13)).unwrap();
        assert!(!v.lt(&n(10)) && v.lt(&n(14)));
    }
    // a width of one still draws a one-bit number
    let mut rng = Prng::with_budget(&[9], 0);
    assert!(gen_bigint_range(&mut rng, &n(5), &n(5)).is_none());
    let mut rng = Prng::new_with_slice_seed(&[9]);
    assert_eq!("5", gen_bigint_range(&mut rng, &n(5), &n(5)).unwrap().to_decimal());
}

#[test]
fn wide_draws_use_several_words() {
    let mut rng = Prng::new_with_slice_seed(&[5]);
    let low = n(0);
    let high = n(2).pow(100);
    let before = rng.budget();
    let v = gen_bigint_range(&mut rng, &low, &high).unwrap();
    assert!(!high.lt(&v));
    assert!(before - rng.budget() >= 4);
}

#[test]
fn searches_find_prime_root_and_h() {
    let mut rng = Prng::new_with_slice_seed(&[11]);
    let p = random_prime_bigint(16, 20, &mut rng).unwrap();
    let q = p.sub(&n(1)).div(&n(2));
    let mut check = Prng::new_with_slice_seed(&[3]);
    assert_eq!(Some(true), solovay_strassen(&q, 20, &mut check));
    assert_eq!(Some(true), solovay_strassen(&p, 20, &mut check));
    let g = find_primitive_root_bigint(&p, &mut rng).unwrap();
    assert!(!g.modpow(&q, &p).eq(&n(1)));
    let h = find_h_bigint(&p, &mut rng).unwrap();
    assert!(!h.lt(&n(1)) && h.lt(&p));
    assert_eq!("1", find_primitive_root_bigint(&n(2), &mut rng).unwrap().to_decimal());
}

#[test]
fn power_by_squaring() {
    assert_eq!("1", pow_bigint(&n(7), &n(0)).to_decimal());
    assert_eq!("0", pow_bigint(&n(0), &n(5)).to_decimal());
    assert_eq!("3486784401", pow_bigint(&n(3), &n(20)).to_decimal());
    assert_eq!(
        "1267650600228229401496703205376",
        pow_bigint(&n(2), &n(100)).to_decimal()
    );
}
