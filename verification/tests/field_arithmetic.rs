//! Tests of the field-arithmetic core: rational canonicalization, reduction
//! into the field, the extended Euclidean inverse, and the square-root scan.

use gf_homework::homework1::Homework1;
use gf_homework::rational::Rational;

fn gcd_ref(mut a: u64, mut b: u64) -> u64 {
    while b != 0 {
        let r = a % b;
        a = b;
        b = r;
    }
    a
}

#[test]
fn rational_new_canonicalizes() {
    let r = Rational::new(21, 12);
    assert_eq!((r.numer, r.denom), (7, 4));
    let r = Rational::new(5, 6);
    assert_eq!((r.numer, r.denom), (5, 6));
    let r = Rational::new(5, -10);
    assert_eq!((r.numer, r.denom), (-1, 2));
    let r = Rational::new(-6, -4);
    assert_eq!((r.numer, r.denom), (3, 2));
    let r = Rational::new(0, 7);
    assert_eq!((r.numer, r.denom), (0, 1));
    let r = Rational::from_integer(-160);
    assert_eq!((r.numer, r.denom), (-160, 1));
}

#[test]
fn reduction_is_idempotent_and_in_range() {
    let hw = Homework1::new(71);
    for n in -200..200i128 {
        for d in [1i128, 2, 3, 5, 6, 7, 12] {
            let v = Rational::new(n, d);
            let r = hw.congruent(v);
            assert_eq!(r.denom, 1);
            assert!(0 <= r.numer && r.numer < 71);
            let again = hw.congruent(r);
            assert_eq!(again, r);
        }
    }
}

#[test]
fn reduction_in_range_for_many_moduli() {
    for m in 1..=50u32 {
        let hw = Homework1::new(m);
        for n in -30..30i128 {
            let r = hw.congruent(Rational::new(n, 1));
            assert_eq!(r.denom, 1);
            assert!(0 <= r.numer && r.numer < m as i128);
            assert_eq!(hw.congruent(r), r);
        }
    }
}

#[test]
fn inverse_on_coprime_inputs() {
    for m in 2..=60u64 {
        for a in 1..m {
            if gcd_ref(a, m) == 1 {
                let inv = Homework1::mod_inverse(a, m);
                assert!(inv < m);
                assert_eq!(a * inv % m, 1);
            }
        }
    }
}

#[test]
fn inverse_without_coprimality_recorded() {
    // No inverse exists when the inputs share a factor; the routine does not
    // detect that and still returns the normalized Bezout coefficient, which
    // satisfies a * r == gcd(a, m) (mod m) rather than a * r == 1.  These
    // literal outcomes are recorded to pin the behavior, not to endorse it.
    assert_eq!(Homework1::mod_inverse(0, 5), 0);
    assert_eq!(Homework1::mod_inverse(2, 4), 1);
    assert_eq!(Homework1::mod_inverse(6, 9), 8);
    for (a, m) in [(2u64, 4u64), (6, 9), (4, 10), (9, 12)] {
        let r = Homework1::mod_inverse(a, m);
        assert!(r < m);
        assert_eq!(a * r % m, gcd_ref(a, m) % m);
    }
}

#[test]
fn square_root_scan_is_exhaustive() {
    for m in 1..=60u32 {
        for t in 0..m {
            match Homework1::find_modular_square_root(t, m) {
                Some(x) => {
                    assert!(1 <= x && x < m);
                    assert_eq!(x as u64 * x as u64 % m as u64, t as u64);
                    for y in 1..x {
                        assert_ne!(y as u64 * y as u64 % m as u64, t as u64);
                    }
                }
                None => {
                    for y in 1..m {
                        assert_ne!(y as u64 * y as u64 % m as u64, t as u64);
                    }
                }
            }
        }
    }
}

#[test]
fn square_root_scan_never_tries_zero() {
    // A target of zero is found only through a nonzero root.
    assert_eq!(Homework1::find_modular_square_root(0, 5), None);
    assert_eq!(Homework1::find_modular_square_root(0, 4), Some(2));
    assert_eq!(Homework1::find_modular_square_root(0, 1), None);
    assert_eq!(Homework1::find_modular_square_root(80, 7), None);
}

#[test]
fn scratch_collection_keeps_order() {
    let mut hw = Homework1::new(71);
    let batch = vec![Rational::new(1, 2), Rational::new(3, 4)];
    hw.add_values(batch);
    hw.add_values(vec![Rational::from_integer(9)]);
    let pairs: Vec<(i128, i128)> = hw.values.iter().map(|v| (v.numer, v.denom)).collect();
    assert_eq!(pairs, vec![(1, 2), (3, 4), (9, 1)]);
    hw.clear_values();
    assert!(hw.values.is_empty());
}
