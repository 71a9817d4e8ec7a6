//! Greatest common divisors, divisibility and modular cancellation.
//!
//! The lemmas here back the contracts of the field-arithmetic routines: the
//! extended Euclidean inverse, the reduction of a fraction to lowest terms,
//! and the cancellation step that shows the additive and multiplicative
//! identities of the demonstrations.

use vstd::prelude::*;
use vstd::arithmetic::div_mod::{
    lemma_fundamental_div_mod, lemma_mod_bound, lemma_mul_mod_noop_left, lemma_small_mod,
};
use vstd::math::abs;

verus! {

/// Greatest common divisor, by the Euclidean recursion.
pub open spec fn gcd(a: nat, b: nat) -> nat
    decreases b,
{
    if b == 0 {
        a
    } else {
        gcd(b, a % b)
    }
}

/// `d` divides `n`.
pub open spec fn divides(d: int, n: int) -> bool {
    exists|k: int| n == #[trigger] (k * d)
}

/// `d` has a multiplicative inverse modulo `m`: its residue is coprime to `m`.
pub open spec fn invertible_mod(d: int, m: int) -> bool
    recommends
        m >= 1,
{
    gcd(m as nat, (d % m) as nat) == 1
}

/// The gcd divides both of its arguments.
pub proof fn lemma_gcd_divides(a: nat, b: nat)
    ensures
        divides(gcd(a, b) as int, a as int),
        divides(gcd(a, b) as int, b as int),
    decreases b,
{
    if b == 0 {
        assert(a as int == 1 * (a as int));
        assert(0int == 0 * (a as int));
    } else {
        lemma_gcd_divides(b, a % b);
        let g = gcd(b, a % b) as int;
        let k1 = choose|k: int| b as int == #[trigger] (k * g);
        let k2 = choose|k: int| (a % b) as int == #[trigger] (k * g);
        lemma_fundamental_div_mod(a as int, b as int);
        let q = a as int / b as int;
        assert(a as int == (q * k1 + k2) * g) by (nonlinear_arith)
            requires
                a as int == (b as int) * q + (a % b) as int,
                b as int == k1 * g,
                (a % b) as int == k2 * g,
        ;
    }
}

/// Only zero is divisible by zero, so a gcd of zero forces both arguments to
/// be zero.
pub proof fn lemma_gcd_zero(a: nat, b: nat)
    ensures
        gcd(a, b) == 0 ==> a == 0 && b == 0,
{
    lemma_gcd_divides(a, b);
    if gcd(a, b) == 0 {
        let k1 = choose|k: int| a as int == #[trigger] (k * 0);
        let k2 = choose|k: int| b as int == #[trigger] (k * 0);
        assert(a as int == k1 * 0 == 0);
        assert(b as int == k2 * 0 == 0);
    }
}

/// Bezout's identity: the gcd is an integer combination of its arguments.
pub proof fn lemma_bezout(a: nat, b: nat)
    ensures
        exists|s: int, t: int| #[trigger] (s * a + t * b) == gcd(a, b),
    decreases b,
{
    if b == 0 {
        assert(1int * a + 0int * b == gcd(a, b));
    } else {
        lemma_bezout(b, a % b);
        let (s1, t1) = choose|s: int, t: int|
            #[trigger] (s * b + t * ((a % b) as nat)) == gcd(b, a % b);
        lemma_fundamental_div_mod(a as int, b as int);
        let q = a as int / b as int;
        let r = (a % b) as int;
        // r == a - q * b, so  s1*b + t1*r == t1*a + (s1 - t1*q)*b.
        assert(t1 * a + (s1 - t1 * q) * b == s1 * b + t1 * r) by (nonlinear_arith)
            requires
                a as int == (b as int) * q + r,
        ;
        assert(t1 * a + (s1 - t1 * q) * b == gcd(a, b));
    }
}

/// A common divisor of both arguments divides the gcd.
pub proof fn lemma_common_divisor_divides_gcd(c: int, a: nat, b: nat)
    requires
        divides(c, a as int),
        divides(c, b as int),
    ensures
        divides(c, gcd(a, b) as int),
{
    lemma_bezout(a, b);
    let (s, t) = choose|s: int, t: int| #[trigger] (s * a + t * b) == gcd(a, b);
    let ka = choose|k: int| a as int == #[trigger] (k * c);
    let kb = choose|k: int| b as int == #[trigger] (k * c);
    assert(gcd(a, b) as int == (s * ka + t * kb) * c) by (nonlinear_arith)
        requires
            s * a + t * b == gcd(a, b),
            a as int == ka * c,
            b as int == kb * c,
    ;
}

/// Divisibility is transitive.
pub proof fn lemma_divides_transitive(a: int, b: int, c: int)
    requires
        divides(a, b),
        divides(b, c),
    ensures
        divides(a, c),
{
    let k1 = choose|k: int| b == #[trigger] (k * a);
    let k2 = choose|k: int| c == #[trigger] (k * b);
    assert(c == (k2 * k1) * a) by (nonlinear_arith)
        requires
            b == k1 * a,
            c == k2 * b,
    ;
}

/// A positive divisor of a positive number is no larger than it.
pub proof fn lemma_divides_le(d: int, n: int)
    requires
        d >= 1,
        n >= 1,
        divides(d, n),
    ensures
        d <= n,
{
    let k = choose|q: int| n == #[trigger] (q * d);
    assert(k >= 1 && k * d >= d) by (nonlinear_arith)
        requires
            n == k * d,
            d >= 1,
            n >= 1,
    ;
}

/// Two positive numbers that divide each other are equal.
pub proof fn lemma_divides_antisymmetric(a: int, b: int)
    requires
        a >= 1,
        b >= 1,
        divides(a, b),
        divides(b, a),
    ensures
        a == b,
{
    lemma_divides_le(a, b);
    lemma_divides_le(b, a);
}

/// Replacing the second argument of the gcd by its residue changes nothing.
pub proof fn lemma_gcd_mod_noop(m: nat, x: nat)
    requires
        m >= 1,
    ensures
        gcd(m, (x % m) as nat) == gcd(m, x),
{
    let d1 = gcd(m, x) as int;
    let d2 = gcd(m, (x % m) as nat) as int;
    lemma_gcd_divides(m, x);
    lemma_gcd_divides(m, (x % m) as nat);
    lemma_gcd_zero(m, x);
    lemma_gcd_zero(m, (x % m) as nat);
    lemma_fundamental_div_mod(x as int, m as int);
    let q = x as int / m as int;
    let r = (x % m) as int;
    // d1 divides x and m, hence divides r == x - q*m.
    let a1 = choose|k: int| x as int == #[trigger] (k * d1);
    let b1 = choose|k: int| m as int == #[trigger] (k * d1);
    assert(r == (a1 - q * b1) * d1) by (nonlinear_arith)
        requires
            r == x as int - q * (m as int),
            x as int == a1 * d1,
            m as int == b1 * d1,
    ;
    lemma_common_divisor_divides_gcd(d1, m, (x % m) as nat);
    // d2 divides m and r, hence divides x == q*m + r.
    let a2 = choose|k: int| r == #[trigger] (k * d2);
    let b2 = choose|k: int| m as int == #[trigger] (k * d2);
    assert(x as int == (q * b2 + a2) * d2) by (nonlinear_arith)
        requires
            x as int == q * (m as int) + r,
            r == a2 * d2,
            m as int == b2 * d2,
    ;
    lemma_common_divisor_divides_gcd(d2, m, x);
    lemma_divides_antisymmetric(d1, d2);
}

/// A number coprime to `big` is coprime to every nonnegative divisor of
/// `big`.
pub proof fn lemma_coprime_divisor(m: nat, big: nat, d: nat)
    requires
        m >= 1,
        gcd(m, big) == 1,
        divides(d as int, big as int),
    ensures
        gcd(m, d) == 1,
{
    let c = gcd(m, d) as int;
    lemma_gcd_divides(m, d);
    lemma_gcd_zero(m, d);
    lemma_divides_transitive(c, d as int, big as int);
    lemma_common_divisor_divides_gcd(c, m, big);
    lemma_divides_le(c, 1int);
}

/// Euclid's lemma, in the form used here: a number coprime to `d` that
/// divides `a * d` divides `a`.
pub proof fn lemma_coprime_divides_factor(c: int, a: int, d: nat)
    requires
        c >= 1,
        gcd(c as nat, d) == 1,
        divides(c, a * d),
    ensures
        divides(c, a),
{
    lemma_bezout(c as nat, d);
    let (s, t) = choose|s: int, t: int| #[trigger] (s * (c as nat) + t * d) == gcd(c as nat, d);
    let k = choose|q: int| a * d == #[trigger] (q * c);
    // a == a*(s*c + t*d) == (a*s + t*k) * c
    assert(a == (a * s + t * k) * c) by (nonlinear_arith)
        requires
            s * c + t * d == 1,
            a * (d as int) == k * c,
    ;
}

/// Cancellation of a coprime factor: equal residues of `x*d` and `y*d`
/// force `x == y` once both lie in `[0, m)`.
pub proof fn lemma_mod_cancel_coprime(m: int, d: nat, x: int, y: int)
    requires
        m >= 1,
        gcd(m as nat, d) == 1,
        (x * d) % m == (y * d) % m,
        0 <= x < m,
        0 <= y < m,
    ensures
        x == y,
{
    lemma_bezout(m as nat, d);
    let (s, t) = choose|s: int, t: int| #[trigger] (s * (m as nat) + t * d) == gcd(m as nat, d);
    lemma_fundamental_div_mod(x * d, m);
    lemma_fundamental_div_mod(y * d, m);
    let qx = (x * d) / m;
    let qy = (y * d) / m;
    // (x - y) * d == m * (qx - qy)
    let big = qx - qy;
    assert((x - y) * d == m * big) by (nonlinear_arith)
        requires
            x * d == m * qx + (x * d) % m,
            y * d == m * qy + (y * d) % m,
            (x * d) % m == (y * d) % m,
            big == qx - qy,
    ;
    // x - y == (x - y)(s*m + t*d) == m * (s*(x - y) + t*big)
    let c = s * (x - y) + t * big;
    assert(x - y == m * c) by (nonlinear_arith)
        requires
            s * m + t * d == 1,
            (x - y) * (d as int) == m * big,
            c == s * (x - y) + t * big,
    ;
    assert(c == 0) by (nonlinear_arith)
        requires
            x - y == m * c,
            -m < x - y < m,
            m >= 1,
    ;
}

/// The gcd does not depend on the order of its arguments.
pub proof fn lemma_gcd_symmetric(a: nat, b: nat)
    ensures
        gcd(a, b) == gcd(b, a),
{
    lemma_gcd_divides(a, b);
    lemma_gcd_divides(b, a);
    lemma_gcd_zero(a, b);
    lemma_gcd_zero(b, a);
    lemma_common_divisor_divides_gcd(gcd(a, b) as int, b, a);
    lemma_common_divisor_divides_gcd(gcd(b, a) as int, a, b);
    if gcd(a, b) == 0 || gcd(b, a) == 0 {
        assert(gcd(a, b) == gcd(b, a));
    } else {
        lemma_divides_antisymmetric(gcd(a, b) as int, gcd(b, a) as int);
    }
}

/// How a reduced fraction `rn / rd` equal to `nn / dd` behaves under the
/// field reduction: once the residue `rc` of the fraction is known to
/// satisfy `rc * rd == rn * gcd(f, rd)  (mod f)`, and `dd` divides a
/// modulus-coprime `d0`, the denominator is invertible and the residue
/// satisfies the congruence of the unreduced fraction `nn / dd` as well.
pub proof fn lemma_congruent_fraction(
    f: int,
    nn: int,
    dd: int,
    rn: int,
    rd: int,
    rc: int,
    d0: nat,
)
    requires
        f >= 1,
        nn >= 0,
        dd >= 1,
        rd >= 1,
        rn * dd == nn * rd,
        gcd(abs(rn), rd as nat) == 1,
        divides(dd, d0 as int),
        invertible_mod(d0 as int, f),
        (rc * rd) % f == (rn * (gcd(f as nat, (rd % f) as nat) as int)) % f,
    ensures
        invertible_mod(rd, f),
        (rc * dd) % f == nn % f,
{
    assert(rn >= 0) by (nonlinear_arith)
        requires
            rn * dd == nn * rd,
            nn >= 0,
            dd >= 1,
            rd >= 1,
    ;
    // rd divides dd: it divides dd * rn (witness nn) and is coprime to rn.
    lemma_gcd_symmetric(rd as nat, rn as nat);
    assert(dd * rn == nn * rd) by (nonlinear_arith)
        requires
            rn * dd == nn * rd,
    ;
    assert(divides(rd, dd * rn));
    lemma_coprime_divides_factor(rd, dd, rn as nat);
    // The modulus is coprime to d0, hence to its divisor rd.
    lemma_mod_bound(d0 as int, f);
    lemma_gcd_mod_noop(f as nat, d0);
    lemma_divides_transitive(rd, dd, d0 as int);
    lemma_coprime_divisor(f as nat, d0, rd as nat);
    lemma_mod_bound(rd, f);
    lemma_gcd_mod_noop(f as nat, rd as nat);
    assert(gcd(f as nat, (rd % f) as nat) == 1);
    assert((rc * rd) % f == rn % f);
    // Scale the congruence by the cofactor dd / rd.
    let k = choose|q: int| dd == #[trigger] (q * rd);
    assert(k >= 1) by (nonlinear_arith)
        requires
            dd == k * rd,
            dd >= 1,
            rd >= 1,
    ;
    assert(rn * k == nn) by (nonlinear_arith)
        requires
            rn * dd == nn * rd,
            dd == k * rd,
            rd >= 1,
    ;
    assert(rc * dd == (rc * rd) * k) by (nonlinear_arith)
        requires
            dd == k * rd,
    ;
    lemma_mul_mod_noop_left(rc * rd, k, f);
    lemma_mul_mod_noop_left(rn, k, f);
    assert((rc * dd) % f == ((rc * rd) % f * k) % f);
    assert(((rn % f) * k) % f == (rn * k) % f);
}

/// `1` is invertible modulo every positive `m`: the inverse of a field
/// element's denominator.
pub proof fn lemma_gcd_one_right(m: nat)
    requires
        m >= 1,
    ensures
        gcd(m, (1int % m as int) as nat) == 1,
{
    if m == 1 {
        assert(1int % 1 == 0) by {
            lemma_mod_bound(1int, 1int);
        }
        assert(gcd(1nat, 0nat) == 1);
    } else {
        assert(1int % m as int == 1) by {
            lemma_small_mod(1nat, m);
        }
        assert((m as int) % 1 == 0) by {
            lemma_mod_bound(m as int, 1int);
        }
        assert(gcd(m, 1nat) == gcd(1nat, m % 1));
        assert(gcd(1nat, 0nat) == 1);
    }
}

} // verus!
