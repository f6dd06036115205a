use ecm::arith::misc::{
    bits, bits_amount, bits_amount_u64, eratosthenes, fast_pow, integer_log, randint,
};
use ecm::arith::modular_arithmetic::{
    add_mod, div_mod, invert_mod, multiply_mod, pow_mod, subtract_mod, take_mod,
};
use ecm::arith::montgomery_point::MontgomeryPoint;
use rug::rand::RandState;
use rug::Integer;

#[test]
fn integer_log_tests() {
    assert_eq!(integer_log(125, 5), Some((3, true)));
    assert_eq!(integer_log(17, 9), Some((1, false)));
}

#[test]
fn montgomery_addh_tests() {
    let p1 = MontgomeryPoint::new(
        Integer::from(11),
        Integer::from(16),
        Integer::from(7),
        Integer::from(29),
    );
    let p2 = MontgomeryPoint::new(
        Integer::from(13),
        Integer::from(10),
        Integer::from(7),
        Integer::from(29),
    );
    let p3 = p2.addh(&p1, &p1);
    assert_eq!((p3.x, p3.z), (Integer::from(23), Integer::from(17)));
}

#[test]
fn montgomery_double_tests() {
    let p = MontgomeryPoint::new(
        Integer::from(11),
        Integer::from(16),
        Integer::from(7),
        Integer::from(29),
    );
    let q = p.double();
    assert_eq!((q.x, q.z), (Integer::from(13), Integer::from(10)));

    let p1 = MontgomeryPoint::new2(
        Integer::from(10),
        Integer::from(17),
        Integer::from(10),
        Integer::from(101),
    );
    let p2 = p1.double();
    assert_eq!(
        p2,
        MontgomeryPoint::new2(
            Integer::from(68),
            Integer::from(56),
            Integer::from(10),
            Integer::from(101)
        )
    );
}

#[test]
fn montgomery_ladder_tests() {
    let p = MontgomeryPoint::new(
        Integer::from(11),
        Integer::from(16),
        Integer::from(7),
        Integer::from(29),
    );
    let q = p.montgomery_ladder(&Integer::from(3));
    assert_eq!((q.x, q.z), (Integer::from(23), Integer::from(17)));
}

#[test]
fn montgomery_double_tests2() {
    let x = Integer::from(10);
    let z = Integer::from(17);
    let a = Integer::from(10);
    let modulo = Integer::from(101);
    let a24 = multiply_mod(
        &add_mod(&a, &Integer::from(2), &modulo),
        &invert_mod(&Integer::from(4), &modulo).unwrap(),
        &modulo,
    );
    let a24_1 = Integer::from(&a24);
    let a24_2 = Integer::from(&a24);
    let p1 = MontgomeryPoint {
        x,
        z,
        a24: a24_1,
        modulo,
    };

    let mod_2 = Integer::from(101);
    let x1 = Integer::from(68);
    let z1 = Integer::from(56);
    let p2 = p1.double();

    assert_eq!(
        p2,
        MontgomeryPoint {
            x: x1,
            z: z1,
            a24: a24_2,
            modulo: mod_2
        }
    );
}

fn trial_division_prime(n: usize) -> bool {
    if n < 2 {
        return false;
    }
    let mut d = 2;
    while d * d <= n {
        if n % d == 0 {
            return false;
        }
        d += 1;
    }
    true
}

#[test]
fn sieve_agrees_with_trial_division() {
    let limit = 100_000;
    let mut primes = vec![true; limit];
    eratosthenes(&mut primes, limit);
    for i in 0..limit {
        assert_eq!(primes[i], trial_division_prime(i), "at {}", i);
    }
}

#[test]
fn sieve_small_entries() {
    let mut primes = vec![true; 12];
    eratosthenes(&mut primes, 12);
    assert_eq!(
        primes,
        vec![false, false, true, true, false, true, false, true, false, false, false, true]
    );
}

#[test]
fn sieve_leaves_the_rest_untouched() {
    let mut primes = vec![true; 10];
    eratosthenes(&mut primes, 5);
    assert_eq!(
        primes,
        vec![false, false, true, true, false, true, true, true, true, true]
    );
    let mut empty: Vec<bool> = Vec::new();
    eratosthenes(&mut empty, 0);
    assert!(empty.is_empty());
    let mut one = vec![true];
    eratosthenes(&mut one, 1);
    assert_eq!(one, vec![false]);
}

#[test]
fn integer_log_brackets_the_number() {
    for x in 2u64..40 {
        for y in 1u64..2000 {
            let (e, exact) = integer_log(y, x).unwrap();
            let low = (x as u128).pow(e);
            let high = (x as u128).pow(e + 1);
            assert!(low <= y as u128 && (y as u128) < high);
            assert_eq!(exact, low == y as u128);
        }
    }
}

#[test]
fn integer_log_edges() {
    assert_eq!(integer_log(10, 0), None);
    assert_eq!(integer_log(10, 1), None);
    assert_eq!(integer_log(0, 7), None);
    assert_eq!(integer_log(1, 7), Some((0, true)));
    assert_eq!(integer_log(6, 7), Some((0, false)));
    assert_eq!(integer_log(7, 7), Some((1, true)));
    assert_eq!(integer_log(10000, 2), Some((13, false)));
    assert_eq!(integer_log(u64::MAX, 2), Some((63, false)));
    assert_eq!(integer_log(1 << 63, 2), Some((63, true)));
    assert_eq!(integer_log(u64::MAX, u64::MAX), Some((1, true)));
}

#[test]
fn fast_pow_values() {
    assert_eq!(fast_pow(&Integer::from(0), &Integer::from(5)), 0);
    assert_eq!(fast_pow(&Integer::from(0), &Integer::from(0)), 0);
    assert_eq!(fast_pow(&Integer::from(7), &Integer::from(0)), 1);
    assert_eq!(fast_pow(&Integer::from(7), &Integer::from(1)), 7);
    assert_eq!(fast_pow(&Integer::from(3), &Integer::from(13)), 1594323);
    assert_eq!(fast_pow(&Integer::from(-2), &Integer::from(5)), -32);
    assert_eq!(
        fast_pow(&Integer::from(2), &Integer::from(100)),
        Integer::from(Integer::u_pow_u(2, 100))
    );
}

#[test]
fn bit_counts() {
    assert_eq!(bits_amount_u64(0), 0);
    assert_eq!(bits_amount_u64(1), 1);
    assert_eq!(bits_amount_u64(6), 3);
    assert_eq!(bits_amount_u64(u64::MAX), 64);
    assert_eq!(bits_amount(&Integer::from(0)), 0);
    assert_eq!(bits_amount(&Integer::from(255)), 8);
    assert_eq!(bits_amount(&Integer::from(256)), 9);
    assert_eq!(
        bits_amount(&Integer::from(Integer::u_pow_u(2, 128))),
        129
    );
}

#[test]
fn binary_digits() {
    assert_eq!(bits(&Integer::from(0)), vec!['0']);
    assert_eq!(bits(&Integer::from(1)), vec!['1']);
    assert_eq!(bits(&Integer::from(6)), vec!['1', '1', '0']);
    assert_eq!(bits(&Integer::from(19)), vec!['1', '0', '0', '1', '1']);
}

#[test]
fn randint_stays_in_range() {
    let mut rand = RandState::new();
    rand.seed(&Integer::from(3));
    let min = Integer::from(6);
    let max = Integer::from(11);
    let mut seen = [false; 6];
    for _ in 0..400 {
        let r = randint(&mut rand, &min, &max);
        assert!(r >= 6 && r <= 11);
        seen[r.to_usize().unwrap() - 6] = true;
    }
    assert!(seen.iter().all(|s| *s));
    let single = randint(&mut rand, &max, &max);
    assert_eq!(single, 11);
}

#[test]
fn division_rounds_towards_zero() {
    let (q, r) = div_mod(&Integer::from(-23), &Integer::from(-10));
    assert_eq!((q, r), (Integer::from(2), Integer::from(-3)));
    let (q, r) = div_mod(&Integer::from(-23), &Integer::from(10));
    assert_eq!((q, r), (Integer::from(-2), Integer::from(-3)));
    let (q, r) = div_mod(&Integer::from(23), &Integer::from(-10));
    assert_eq!((q, r), (Integer::from(-2), Integer::from(3)));
    let (q, r) = div_mod(&Integer::from(23), &Integer::from(10));
    assert_eq!((q, r), (Integer::from(2), Integer::from(3)));
}

#[test]
fn residues_are_never_negative() {
    let m = Integer::from(5);
    assert_eq!(take_mod(&Integer::from(-7), &m), 3);
    assert_eq!(take_mod(&Integer::from(-10), &m), 0);
    assert_eq!(take_mod(&Integer::from(12), &m), 2);
    assert_eq!(take_mod(&Integer::from(4), &m), 4);
    assert_eq!(subtract_mod(&Integer::from(2), &Integer::from(4), &m), 3);
    assert_eq!(add_mod(&Integer::from(4), &Integer::from(4), &m), 3);
    assert_eq!(multiply_mod(&Integer::from(4), &Integer::from(4), &m), 1);
    assert_eq!(multiply_mod(&Integer::from(-4), &Integer::from(3), &m), 3);
    assert_eq!(pow_mod(&Integer::from(3), 4, &m), 1);
    assert_eq!(pow_mod(&Integer::from(-2), 3, &m), 2);
    assert_eq!(pow_mod(&Integer::from(9), 0, &m), 1);
}

#[test]
fn inverses() {
    assert_eq!(invert_mod(&Integer::from(2), &Integer::from(4)), None);
    assert_eq!(
        invert_mod(&Integer::from(2), &Integer::from(5)),
        Some(Integer::from(3))
    );
    assert_eq!(
        invert_mod(&Integer::from(-2), &Integer::from(5)),
        Some(Integer::from(2))
    );
    assert_eq!(invert_mod(&Integer::from(0), &Integer::from(7)), None);
    assert_eq!(invert_mod(&Integer::from(21), &Integer::from(14)), None);
}
