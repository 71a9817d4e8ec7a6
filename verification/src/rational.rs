//! Exact rational numbers with fixed-width components.
//!
//! A `Rational` is a signed fraction kept in lowest terms with a positive
//! denominator, the canonical form its constructor establishes.  The range
//! of `i128` comfortably covers every value the demonstrations build; the
//! arithmetic that matters here happens modulo a 32-bit field size anyway.

use vstd::prelude::*;
use vstd::arithmetic::div_mod::{
    lemma_fundamental_div_mod, lemma_mod_bound, lemma_mod_division_less_than_divisor,
    lemma_mod_multiples_basic,
};
use vstd::math::abs;
use crate::number_theory::{divides, gcd, lemma_gcd_divides, lemma_gcd_zero};

verus! {

/// An exact fraction: `numer / denom`.
#[derive(Clone, Copy, Debug, PartialEq, Eq, Structural)]
pub struct Rational {
    pub numer: i128,
    pub denom: i128,
}

/// `r` is in canonical form: positive denominator, lowest terms.
pub open spec fn is_canonical(r: Rational) -> bool {
    r.denom >= 1 && gcd(abs(r.numer as int), r.denom as nat) == 1
}

/// `r` holds the same rational value as `n / d`.
pub open spec fn same_value(r: Rational, n: int, d: int) -> bool {
    r.numer * d == n * r.denom
}

/// `r` is the canonical form of the fraction `n / d`.
pub open spec fn is_fraction_of(r: Rational, n: int, d: int) -> bool {
    is_canonical(r) && same_value(r, n, d)
}

/// Euclid's algorithm on machine integers.
fn gcd_u128(a: u128, b: u128) -> (g: u128)
    ensures
        g as nat == gcd(a as nat, b as nat),
{
    let mut x = a;
    let mut y = b;
    while y != 0
        invariant
            gcd(x as nat, y as nat) == gcd(a as nat, b as nat),
        decreases y,
    {
        proof {
            lemma_mod_division_less_than_divisor(x as int, y as int);
            lemma_mod_bound(x as int, y as int);
        }
        let r = x % y;
        x = y;
        y = r;
    }
    x
}

impl Rational {
    /// An integer as a rational with denominator one.
    pub fn from_integer(n: i128) -> (r: Rational)
        ensures
            r.numer == n,
            r.denom == 1,
    {
        Rational { numer: n, denom: 1 }
    }

    /// Builds `n / d` in canonical form: the sign moves to the numerator and
    /// the common factor of numerator and denominator is divided out.
    pub fn new(n: i128, d: i128) -> (r: Rational)
        requires
            d != 0,
            n > i128::MIN,
            d > i128::MIN,
        ensures
            is_canonical(r),
            same_value(r, n as int, d as int),
    {
        let na: u128 = if n >= 0 {
            n as u128
        } else {
            (-n) as u128
        };
        let da: u128 = if d >= 0 {
            d as u128
        } else {
            (-d) as u128
        };
        let g = gcd_u128(na, da);
        proof {
            lemma_gcd_zero(na as nat, da as nat);
            assert(g >= 1);
            lemma_gcd_divides(na as nat, da as nat);
            lemma_div_exact(na as int, g as int);
            lemma_div_exact(da as int, g as int);
        }
        let rn_mag: u128 = na / g;
        let rd_mag: u128 = da / g;
        proof {
            lemma_quotients_coprime(na as nat, da as nat);
            assert(rn_mag <= na && rd_mag <= da) by (nonlinear_arith)
                requires
                    (rn_mag as int) * (g as int) == na as int,
                    (rd_mag as int) * (g as int) == da as int,
                    g >= 1,
            ;
            assert(rd_mag >= 1) by (nonlinear_arith)
                requires
                    (rd_mag as int) * (g as int) == da as int,
                    da >= 1,
            ;
        }
        let negative = (n < 0) != (d < 0);
        let rn: i128 = if negative {
            -(rn_mag as i128)
        } else {
            rn_mag as i128
        };
        let r = Rational { numer: rn, denom: rd_mag as i128 };
        proof {
            assert(r.numer * d == n * r.denom) by (nonlinear_arith)
                requires
                    n >= 0 ==> na == n,
                    n < 0 ==> na as int == -(n as int),
                    d >= 0 ==> da == d,
                    d < 0 ==> da as int == -(d as int),
                    (rn_mag as int) * (g as int) == na as int,
                    (rd_mag as int) * (g as int) == da as int,
                    ((n < 0) != (d < 0)) ==> r.numer as int == -(rn_mag as int),
                    ((n < 0) == (d < 0)) ==> r.numer as int == rn_mag as int,
                    r.denom == rd_mag,
            ;
            assert(abs(r.numer as int) == rn_mag as nat);
        }
        r
    }
}

/// Exact division: when `g` divides `a`, the quotient times `g` gives back
/// `a`.
proof fn lemma_div_exact(a: int, g: int)
    requires
        a >= 0,
        g >= 1,
        divides(g, a),
    ensures
        (a / g) * g == a,
{
    let k = choose|k: int| a == #[trigger] (k * g);
    lemma_fundamental_div_mod(a, g);
    lemma_mod_multiples_basic(k, g);
}

/// Dividing two numbers by their gcd leaves coprime quotients.
proof fn lemma_quotients_coprime(a: nat, b: nat)
    requires
        gcd(a, b) >= 1,
    ensures
        gcd((a as int / gcd(a, b) as int) as nat, (b as int / gcd(a, b) as int) as nat) == 1,
{
    let g = gcd(a, b) as int;
    lemma_gcd_divides(a, b);
    lemma_div_exact(a as int, g);
    lemma_div_exact(b as int, g);
    let qa = a as int / g;
    let qb = b as int / g;
    vstd::arithmetic::div_mod::lemma_div_pos_is_pos(a as int, g);
    vstd::arithmetic::div_mod::lemma_div_pos_is_pos(b as int, g);
    let d = gcd(qa as nat, qb as nat) as int;
    lemma_gcd_divides(qa as nat, qb as nat);
    crate::number_theory::lemma_gcd_zero(qa as nat, qb as nat);
    if d == 0 {
        // then qa == qb == 0, so a == b == 0 and g == gcd(0, 0) == 0.
        assert(a as int == qa * g);
        assert(false);
    }
    let ka = choose|k: int| qa == #[trigger] (k * d);
    let kb = choose|k: int| qb == #[trigger] (k * d);
    assert(a as int == ka * (d * g) && b as int == kb * (d * g)) by (nonlinear_arith)
        requires
            a as int == qa * g,
            b as int == qb * g,
            qa == ka * d,
            qb == kb * d,
    ;
    crate::number_theory::lemma_common_divisor_divides_gcd(d * g, a, b);
    crate::number_theory::lemma_divides_le(d * g, g);
    assert(d == 1) by (nonlinear_arith)
        requires
            d >= 1,
            g >= 1,
            d * g <= g,
    ;
}

} // verus!
