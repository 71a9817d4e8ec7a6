//! Tests of the five demonstration procedures with the reference modulus 71.

use gf_homework::homework1::Homework1;
use gf_homework::rational::Rational;

#[test]
fn q1_reduces_the_four_integers() {
    let mut hw = Homework1::new(71);
    hw.q1();
    let numers: Vec<i128> = hw.values.iter().map(|v| v.numer).collect();
    // -1 -> 70, -4 -> 67, -160 -> 53, 500 = 7 * 71 + 3 -> 3.
    assert_eq!(numers, vec![70, 67, 53, 3]);
    assert!(hw.values.iter().all(|v| v.denom == 1));
    hw.clear_values();
    assert!(hw.values.is_empty());
}

#[test]
fn q2_additive_identity() {
    let hw = Homework1::new(71);
    let r = hw.q2();
    assert_eq!(hw.congruent(Rational::new(5, 6)).numer, 60);
    assert_eq!(hw.congruent(Rational::new(11, 12)).numer, 66);
    assert_eq!((60 + 66) % 71, 55);
    assert_eq!(r.lhs, 55);
    assert_eq!(hw.congruent(Rational::new(21, 12)).numer, 55);
    assert!(r.holds);
    assert_eq!((r.a.numer, r.a.denom), (5, 6));
    assert_eq!((r.b.numer, r.b.denom), (11, 12));
    // 21/12 is staged in canonical form.
    assert_eq!((r.c.numer, r.c.denom), (7, 4));
}

#[test]
fn q3_multiplicative_identity() {
    let hw = Homework1::new(71);
    let r = hw.q3();
    // Direct computation: 3^-1 = 24 so 2/3 -> 48; 2^-1 = 36 so 1/2 -> 36;
    // 48 * 36 = 1728 = 24 * 71 + 24 -> 24, and 1/3 -> 24 as well.
    assert_eq!(hw.congruent(Rational::new(2, 3)).numer, 48);
    assert_eq!(hw.congruent(Rational::new(1, 2)).numer, 36);
    assert_eq!(48u64 * 36 % 71, 24);
    assert_eq!(r.lhs, 24);
    assert_eq!(hw.congruent(Rational::new(1, 3)).numer, 24);
    assert!(r.holds);
    assert_eq!((r.a.numer, r.a.denom), (2, 3));
    assert_eq!((r.b.numer, r.b.denom), (1, 2));
    assert_eq!((r.c.numer, r.c.denom), (1, 3));
}

#[test]
fn q4_square_root_of_twelve() {
    let hw = Homework1::new(71);
    assert_eq!(hw.congruent(Rational::from_integer(12)).numer, 12);
    let root = hw.q4();
    assert_eq!(root, Some(15));
    assert_eq!(15u64 * 15 % 71, 12);
    // 15 is the smallest root in [1, 71).
    for y in 1u64..15 {
        assert_ne!(y * y % 71, 12);
    }
}

#[test]
fn q5_polynomial_sum_and_product() {
    let hw = Homework1::new(71);
    let r = hw.q5();
    assert_eq!(r.sum, vec![21, 64, 48]);
    // Reference convolution, reduced at every accumulation step exactly as
    // the demonstration reduces it.
    let p = [52u32, 24, 61];
    let q = [40u32, 40, 58];
    let mut reference = [0u32; 5];
    for i in 0..3 {
        for j in 0..3 {
            reference[i + j] = (reference[i + j] + p[i] * q[j]) % 71;
        }
    }
    assert_eq!(r.product, reference.to_vec());
    assert_eq!(r.product, vec![21, 58, 26, 69, 59]);
}

#[test]
fn full_run_with_resets() {
    let mut hw = Homework1::new(71);
    hw.q1();
    hw.clear_values();
    let _ = hw.q2();
    hw.clear_values();
    let _ = hw.q3();
    hw.clear_values();
    let _ = hw.q4();
    hw.clear_values();
    let _ = hw.q5();
    hw.clear_values();
    assert!(hw.values.is_empty());
}
