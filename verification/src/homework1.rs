//! The homework driver: a field modulus, a scratch collection of rational
//! values, and the five demonstration procedures `q1` through `q5`.
//!
//! Every procedure returns the data it computes; printing is left to the
//! caller.  The field arithmetic itself — reduction of a rational to its
//! canonical representative in GF(m) and the extended Euclidean modular
//! inverse — lives here as well, as methods of the driver.

use vstd::prelude::*;
use vstd::arithmetic::div_mod::{
    lemma_add_mod_noop, lemma_fundamental_div_mod, lemma_fundamental_div_mod_converse_mod,
    lemma_mod_bound, lemma_mod_division_less_than_divisor, lemma_mod_multiples_vanish,
    lemma_mul_mod_noop_general, lemma_mul_mod_noop_left, lemma_small_mod,
};
use vstd::math::abs;
use crate::number_theory::{gcd, invertible_mod, lemma_congruent_fraction};
use crate::rational::{is_fraction_of, Rational};

verus! {

/// The demonstration driver: a scratch collection of rational values and the
/// field modulus they are reduced against.
pub struct Homework1 {
    pub values: Vec<Rational>,
    pub field: u32,
}

/// `v` is a canonical element of GF(`m`): an integer in `[0, m)` over
/// denominator one.
pub open spec fn is_field_element(v: Rational, m: int) -> bool {
    v.denom == 1 && 0 <= v.numer < m
}

/// The integer `n` reduced into GF(`f`): its nonnegative residue over
/// denominator one.
pub open spec fn reduced_integer(n: int, f: int) -> Rational {
    Rational { numer: (n % f) as i128, denom: 1 }
}

/// The four integers that the first demonstration reduces.
pub open spec fn q1_inputs() -> Seq<int> {
    seq![-1int, -4int, -160int, 500int]
}

/// What the first demonstration leaves in the scratch collection.
pub open spec fn q1_reduced(f: int) -> Seq<Rational> {
    seq![
        reduced_integer(-1, f),
        reduced_integer(-4, f),
        reduced_integer(-160, f),
        reduced_integer(500, f),
    ]
}

/// Coefficients of the first fixed polynomial, `52x^2 + 24x + 61`, by
/// descending powers.
pub open spec fn q5_p() -> Seq<u32> {
    seq![52u32, 24u32, 61u32]
}

/// Coefficients of the second fixed polynomial, `40x^2 + 40x + 58`, by
/// descending powers.
pub open spec fn q5_q() -> Seq<u32> {
    seq![40u32, 40u32, 58u32]
}

/// One summand of a polynomial product coefficient: the contribution of
/// `p[i]` to the coefficient of combined index `k`.
pub open spec fn conv_term(p: Seq<u32>, q: Seq<u32>, k: int, i: int) -> int {
    if 0 <= i < p.len() && 0 <= k - i < q.len() {
        p[i] * q[k - i]
    } else {
        0
    }
}

/// The partial product coefficient at combined index `k` after the first
/// `n` coefficients of `p` have been multiplied through.
pub open spec fn conv_prefix(p: Seq<u32>, q: Seq<u32>, k: int, n: int) -> int
    decreases n,
{
    if n <= 0 {
        0
    } else {
        conv_prefix(p, q, k, n - 1) + conv_term(p, q, k, n - 1)
    }
}

/// The outcome of the polynomial demonstration: the product and sum
/// coefficient sequences, each reduced modulo the field, by descending
/// powers.
#[derive(Debug)]
pub struct PolyDemo {
    pub product: Vec<u32>,
    pub sum: Vec<u32>,
}

/// The outcome of an identity demonstration: the three staged fractions,
/// the combination of the reduced first two taken modulo the field, and
/// whether it equals the reduction of the third.
#[derive(Clone, Copy, Debug, PartialEq, Eq, Structural)]
pub struct IdentityCheck {
    pub a: Rational,
    pub b: Rational,
    pub c: Rational,
    pub lhs: u64,
    pub holds: bool,
}

/// The nonnegative remainder of `x` modulo `m`, matching the ghost
/// (Euclidean) `%` on `int` for any sign of `x`.
fn euclid_rem(x: i128, m: u32) -> (r: u64)
    requires
        m >= 1,
    ensures
        r as int == (x as int) % (m as int),
        r < m,
{
    let mu: u128 = m as u128;
    if x >= 0 {
        proof {
            lemma_mod_bound(x as int, m as int);
        }
        ((x as u128) % mu) as u64
    } else {
        let y: u128 = (-1 - x) as u128;
        let t: u128 = y % mu;
        proof {
            lemma_mod_bound(y as int, m as int);
            lemma_fundamental_div_mod(y as int, m as int);
            let q = y as int / m as int;
            assert(x as int == (-q - 1) * (m as int) + (m as int - 1 - t as int))
                by (nonlinear_arith)
                requires
                    y as int == (m as int) * q + t as int,
                    x as int == -1 - y as int,
            ;
            lemma_fundamental_div_mod_converse_mod(
                x as int,
                m as int,
                -q - 1,
                m as int - 1 - t as int,
            );
        }
        ((mu - 1) - t) as u64
    }
}

impl Homework1 {
    /// A fresh driver over the given modulus, with an empty scratch
    /// collection.
    pub fn new(field: u32) -> (hw: Homework1)
        ensures
            hw.field == field,
            hw.values@ =~= Seq::<Rational>::empty(),
    {
        Homework1 { values: Vec::new(), field }
    }

    /// Appends the given values to the scratch collection, keeping order.
    pub fn add_values(&mut self, values: Vec<Rational>)
        ensures
            final(self).field == old(self).field,
            final(self).values@ == old(self).values@ + values@,
    {
        let mut incoming = values;
        self.values.append(&mut incoming);
    }

    /// Empties the scratch collection.
    pub fn clear_values(&mut self)
        ensures
            final(self).field == old(self).field,
            final(self).values@ =~= Seq::<Rational>::empty(),
    {
        self.values.clear();
    }

    /// The first demonstration: reduces the four fixed integers into the
    /// field and appends the reduced elements, in order, to the scratch
    /// collection.
    pub fn q1(&mut self)
        requires
            old(self).field >= 1,
        ensures
            final(self).field == old(self).field,
            final(self).values@ =~= old(self).values@ + q1_reduced(old(self).field as int),
    {
        let mut values: Vec<Rational> = Vec::new();
        values.push(Rational::from_integer(-1));
        values.push(Rational::from_integer(-4));
        values.push(Rational::from_integer(-160));
        values.push(Rational::from_integer(500));
        let ghost f = self.field as int;
        let mut i: usize = 0;
        while i < values.len()
            invariant
                values@.len() == 4,
                self.field >= 1,
                f == self.field as int,
                i <= 4,
                forall|j: int| 0 <= j < i ==> values@[j] == q1_reduced(f)[j],
                forall|j: int|
                    i <= j < 4 ==> (#[trigger] values@[j]).denom == 1 && values@[j].numer as int
                        == q1_inputs()[j],
            decreases values@.len() - i,
        {
            let cur = values[i];
            let red = self.congruent(cur);
            proof {
                lemma_reduce_integer(self.field as nat, cur, red);
            }
            values[i] = red;
            i = i + 1;
        }
        self.add_values(values);
    }

    /// The second demonstration: the additive identity `5/6 + 11/12 = 21/12`
    /// carries over into the field.  Each fraction is reduced independently;
    /// the sum of the first two reduced elements, taken modulo the field
    /// again, is compared against the reduction of the third.
    ///
    /// Whenever twelve is invertible under the modulus, the comparison is
    /// guaranteed to come out true: the returned sum is the unique residue
    /// congruent to `21/12`.
    pub fn q2(&self) -> (r: IdentityCheck)
        requires
            self.field >= 1,
        ensures
            is_fraction_of(r.a, 5, 6),
            is_fraction_of(r.b, 11, 12),
            is_fraction_of(r.c, 21, 12),
            r.lhs < self.field,
            invertible_mod(12, self.field as int) ==> (r.lhs as int * 12) % (self.field as int)
                == 21int % (self.field as int) && r.holds,
    {
        let a = Rational::new(5, 6);
        let b = Rational::new(11, 12);
        let c = Rational::new(21, 12);
        let ac = self.congruent(a);
        let bc = self.congruent(b);
        let cc = self.congruent(c);
        let fw: u64 = self.field as u64;
        let lhs: u64 = ((ac.numer as u64) + (bc.numer as u64)) % fw;
        let holds = lhs == (cc.numer as u64);
        proof {
            let f = self.field as int;
            let s0 = ac.numer as int + bc.numer as int;
            lemma_mod_bound(s0, f);
            if invertible_mod(12, f) {
                assert(12int == 2 * 6);
                assert(12int == 1 * 12);
                lemma_congruent_fraction(
                    f, 5, 6, a.numer as int, a.denom as int, ac.numer as int, 12);
                lemma_congruent_fraction(
                    f, 11, 12, b.numer as int, b.denom as int, bc.numer as int, 12);
                lemma_congruent_fraction(
                    f, 21, 12, c.numer as int, c.denom as int, cc.numer as int, 12);
                // lhs * 12  ==  ac*12 + bc*12  ==  5*2 + 11  ==  21  (mod f)
                lemma_mul_mod_noop_left(s0, 12, f);
                lemma_add_mod_noop(ac.numer as int * 12, bc.numer as int * 12, f);
                assert(ac.numer as int * 12 == (ac.numer as int * 6) * 2);
                lemma_mul_mod_noop_left(ac.numer as int * 6, 2, f);
                lemma_mul_mod_noop_left(5int, 2, f);
                assert((ac.numer as int * 12) % f == 10int % f);
                lemma_add_mod_noop(10int, 11int, f);
                assert((bc.numer as int * 12) % f == 11int % f);
                assert((lhs as int * 12) % f == 21int % f);
                // The reduction of 21/12 is the same residue.
                lemma_mod_bound(12int, f);
                crate::number_theory::lemma_gcd_mod_noop(self.field as nat, 12nat);
                crate::number_theory::lemma_mod_cancel_coprime(
                    f, 12nat, lhs as int, cc.numer as int);
            }
        }
        IdentityCheck { a, b, c, lhs, holds }
    }

    /// The third demonstration: the multiplicative identity
    /// `2/3 * 1/2 = 1/3` carries over into the field, in the same shape as
    /// the additive demonstration but with a product in place of the sum.
    ///
    /// Whenever six is invertible under the modulus, the comparison is
    /// guaranteed to come out true: the returned product is the unique
    /// residue congruent to `1/3`.
    pub fn q3(&self) -> (r: IdentityCheck)
        requires
            self.field >= 1,
        ensures
            is_fraction_of(r.a, 2, 3),
            is_fraction_of(r.b, 1, 2),
            is_fraction_of(r.c, 1, 3),
            r.lhs < self.field,
            invertible_mod(6, self.field as int) ==> (r.lhs as int * 6) % (self.field as int)
                == 2int % (self.field as int) && r.holds,
    {
        let a = Rational::new(2, 3);
        let b = Rational::new(1, 2);
        let c = Rational::new(1, 3);
        let ac = self.congruent(a);
        let bc = self.congruent(b);
        let cc = self.congruent(c);
        let fw: u64 = self.field as u64;
        proof {
            assert((ac.numer as int) * (bc.numer as int) < 0x1_0000_0000_0000_0000)
                by (nonlinear_arith)
                requires
                    0 <= ac.numer < 0x1_0000_0000i128,
                    0 <= bc.numer < 0x1_0000_0000i128,
            ;
        }
        let lhs: u64 = ((ac.numer as u64) * (bc.numer as u64)) % fw;
        let holds = lhs == (cc.numer as u64);
        proof {
            let f = self.field as int;
            let p0 = (ac.numer as int) * (bc.numer as int);
            lemma_mod_bound(p0, f);
            if invertible_mod(6, f) {
                assert(6int == 2 * 3);
                assert(6int == 3 * 2);
                lemma_congruent_fraction(
                    f, 2, 3, a.numer as int, a.denom as int, ac.numer as int, 6);
                lemma_congruent_fraction(
                    f, 1, 2, b.numer as int, b.denom as int, bc.numer as int, 6);
                lemma_congruent_fraction(
                    f, 1, 3, c.numer as int, c.denom as int, cc.numer as int, 6);
                // lhs * 6  ==  (ac*3) * (bc*2)  ==  2 * 1  ==  2  (mod f)
                lemma_mul_mod_noop_left(p0, 6, f);
                assert(p0 * 6 == (ac.numer as int * 3) * (bc.numer as int * 2))
                    by (nonlinear_arith)
                    requires
                        p0 == (ac.numer as int) * (bc.numer as int),
                ;
                lemma_mul_mod_noop_general(ac.numer as int * 3, bc.numer as int * 2, f);
                lemma_mul_mod_noop_general(2int, 1int, f);
                assert((lhs as int * 6) % f == 2int % f);
                // The reduction of 1/3 is the same residue.
                assert(cc.numer as int * 6 == (cc.numer as int * 3) * 2);
                lemma_mul_mod_noop_left(cc.numer as int * 3, 2, f);
                lemma_mul_mod_noop_left(1int, 2, f);
                assert((cc.numer as int * 6) % f == 2int % f);
                lemma_mod_bound(6int, f);
                crate::number_theory::lemma_gcd_mod_noop(self.field as nat, 6nat);
                crate::number_theory::lemma_mod_cancel_coprime(
                    f, 6nat, lhs as int, cc.numer as int);
            }
        }
        IdentityCheck { a, b, c, lhs, holds }
    }

    /// The fourth demonstration: reduces the integer twelve into the field
    /// and searches for a modular square root of the reduced value.
    pub fn q4(&self) -> (root: Option<u32>)
        requires
            self.field >= 1,
        ensures
            match root {
                Some(x) => 1 <= x < self.field && (x as int * x as int) % (self.field as int)
                    == 12int % (self.field as int) && forall|y: int|
                    1 <= y < x ==> #[trigger] ((y * y) % (self.field as int)) != 12int % (self.field as int),
                None => forall|y: int|
                    1 <= y < self.field ==> #[trigger] ((y * y) % (self.field as int)) != 12int
                        % (self.field as int),
            },
    {
        let rational = Rational::from_integer(12);
        let value = self.congruent(rational);
        proof {
            lemma_reduce_integer(self.field as nat, rational, value);
            lemma_mod_bound(12int, self.field as int);
        }
        let target: u32 = if value.numer >= 0 && value.numer <= 0xffff_ffff {
            value.numer as u32
        } else {
            0
        };
        Homework1::find_modular_square_root(target, self.field)
    }

    /// The fifth demonstration: adds and multiplies the two fixed
    /// polynomials `52x^2 + 24x + 61` and `40x^2 + 40x + 58`, reducing each
    /// coefficient modulo the field at every accumulation step.
    ///
    /// The sum is elementwise; the product is the convolution of the
    /// coefficient sequences.  Reducing the running accumulator at each
    /// step leaves the same residues as reducing the finished sums once.
    pub fn q5(&self) -> (r: PolyDemo)
        requires
            self.field >= 1,
        ensures
            ({
                let f = self.field as int;
                &&& r.sum@.len() == 3
                &&& r.product@.len() == 5
                &&& forall|i: int|
                    0 <= i < 3 ==> (#[trigger] r.sum@[i]) as int == (q5_p()[i] + q5_q()[i]) % f
                &&& forall|k: int|
                    0 <= k < 5 ==> (#[trigger] r.product@[k]) as int == conv_prefix(
                        q5_p(),
                        q5_q(),
                        k,
                        3,
                    ) % f
                &&& r.product@[0] as int == (52int * 40) % f
                &&& r.product@[1] as int == (52int * 40 + 24 * 40) % f
                &&& r.product@[2] as int == (52int * 58 + 24 * 40 + 61 * 40) % f
                &&& r.product@[3] as int == (24int * 58 + 61 * 40) % f
                &&& r.product@[4] as int == (61int * 58) % f
            }),
    {
        let fw: u64 = self.field as u64;
        let ghost f = self.field as int;
        let mut p: Vec<u32> = Vec::new();
        p.push(52);
        p.push(24);
        p.push(61);
        let mut q: Vec<u32> = Vec::new();
        q.push(40);
        q.push(40);
        q.push(58);
        proof {
            assert(p@ =~= q5_p());
            assert(q@ =~= q5_q());
        }
        // Elementwise sum, reduced modulo the field.
        let mut sum: Vec<u32> = Vec::new();
        let mut i: usize = 0;
        while i < 3
            invariant
                self.field >= 1,
                fw == self.field as u64,
                f == self.field as int,
                p@ == q5_p(),
                q@ == q5_q(),
                i <= 3,
                sum@.len() == i,
                forall|j: int|
                    0 <= j < i ==> (#[trigger] sum@[j]) as int == (q5_p()[j] + q5_q()[j]) % f,
            decreases 3 - i,
        {
            let v: u64 = ((p[i] as u64) + (q[i] as u64)) % fw;
            proof {
                lemma_mod_bound((p@[i as int] + q@[i as int]) as int, f);
            }
            sum.push(v as u32);
            i = i + 1;
        }
        // Convolution, with the accumulator reduced at every step.
        let mut product: Vec<u32> = Vec::new();
        let mut z: usize = 0;
        while z < 5
            invariant
                product@.len() == z,
                z <= 5,
                forall|k: int| 0 <= k < z ==> (#[trigger] product@[k]) == 0u32,
            decreases 5 - z,
        {
            product.push(0);
            z = z + 1;
        }
        proof {
            lemma_small_mod(0nat, self.field as nat);
            assert(forall|k: int| conv_prefix(q5_p(), q5_q(), k, 0) == 0);
        }
        let mut i: usize = 0;
        while i < 3
            invariant
                self.field >= 1,
                fw == self.field as u64,
                f == self.field as int,
                p@ == q5_p(),
                q@ == q5_q(),
                i <= 3,
                product@.len() == 5,
                forall|k: int|
                    0 <= k < 5 ==> (#[trigger] product@[k]) < self.field && product@[k] as int
                        == conv_prefix(q5_p(), q5_q(), k, i as int) % f,
            decreases 3 - i,
        {
            let mut j: usize = 0;
            while j < 3
                invariant
                    self.field >= 1,
                    fw == self.field as u64,
                    f == self.field as int,
                    p@ == q5_p(),
                    q@ == q5_q(),
                    i < 3,
                    j <= 3,
                    product@.len() == 5,
                    forall|k: int|
                        0 <= k < 5 ==> (#[trigger] product@[k]) < self.field && product@[k] as int
                            == (conv_prefix(q5_p(), q5_q(), k, i as int) + if i <= k < i + j {
                            conv_term(q5_p(), q5_q(), k, i as int)
                        } else {
                            0int
                        }) % f,
                decreases 3 - j,
            {
                let idx = i + j;
                let cur = product[idx];
                proof {
                    assert((p@[i as int] as int) * (q@[j as int] as int) < 0x1_0000_0000_0000_0000
                        && (p@[i as int] as int) * (q@[j as int] as int) >= 0) by (nonlinear_arith)
                        requires
                            p@[i as int] < 0x1_0000_0000u64,
                            q@[j as int] < 0x1_0000_0000u64,
                    ;
                }
                let pr: u64 = (p[i] as u64) * (q[j] as u64);
                let v64: u64 = ((cur as u64) + pr) % fw;
                proof {
                    let k = idx as int;
                    let base = conv_prefix(q5_p(), q5_q(), k, i as int);
                    let t = conv_term(q5_p(), q5_q(), k, i as int);
                    assert(t == pr as int);
                    lemma_mod_bound(base + t, f);
                    lemma_add_mod_noop(base, t, f);
                    vstd::arithmetic::div_mod::lemma_add_mod_noop_right(base % f, t, f);
                    assert(v64 as int == (base + t) % f);
                }
                product[idx] = v64 as u32;
                j = j + 1;
            }
            proof {
                assert(forall|k: int|
                    0 <= k < 5 ==> conv_prefix(q5_p(), q5_q(), k, i as int + 1) == conv_prefix(
                        q5_p(),
                        q5_q(),
                        k,
                        i as int,
                    ) + conv_term(q5_p(), q5_q(), k, i as int));
            }
            i = i + 1;
        }
        proof {
            reveal_with_fuel(conv_prefix, 4);
            assert(conv_prefix(q5_p(), q5_q(), 0, 3) == 52int * 40);
            assert(conv_prefix(q5_p(), q5_q(), 1, 3) == 52int * 40 + 24 * 40);
            assert(conv_prefix(q5_p(), q5_q(), 2, 3) == 52int * 58 + 24 * 40 + 61 * 40);
            assert(conv_prefix(q5_p(), q5_q(), 3, 3) == 24int * 58 + 61 * 40);
            assert(conv_prefix(q5_p(), q5_q(), 4, 3) == 61int * 58);
        }
        PolyDemo { product, sum }
    }

    /// Reduces a rational to its canonical representative in GF(field): the
    /// residue of the numerator times the modular inverse of the residue of
    /// the denominator, over denominator one.
    ///
    /// The result multiplied by the input's denominator is congruent to the
    /// input's numerator scaled by `gcd(field, denominator)` — so exactly
    /// when the denominator is invertible, the result is the unique field
    /// element equal to the input fraction.  A denominator sharing a factor
    /// with the field silently yields a residue that stands for nothing; the
    /// congruence below is all that holds of it.  Canonical field elements
    /// are fixed points.
    pub fn congruent(&self, value: Rational) -> (r: Rational)
        requires
            self.field >= 1,
        ensures
            is_field_element(r, self.field as int),
            (r.numer * value.denom) % (self.field as int) == (value.numer * gcd(
                self.field as nat,
                ((value.denom as int) % (self.field as int)) as nat,
            )) % (self.field as int),
            is_field_element(value, self.field as int) ==> r == value,
    {
        let fw: u64 = self.field as u64;
        let nm: u64 = euclid_rem(value.numer, self.field);
        let dm: u64 = euclid_rem(value.denom, self.field);
        let dinv: u64 = Homework1::mod_inverse(dm, fw);
        proof {
            assert((nm as int) * (dinv as int) < 0x1_0000_0000_0000_0000) by (nonlinear_arith)
                requires
                    nm < 0x1_0000_0000u64,
                    dinv < 0x1_0000_0000u64,
            ;
        }
        let rn: u64 = (nm * dinv) % fw;
        let r = Rational { numer: rn as i128, denom: 1 };
        proof {
            let f = self.field as int;
            let g = gcd(self.field as nat, ((value.denom as int) % f) as nat) as int;
            lemma_mod_bound((nm * dinv) as int, f);
            lemma_small_mod(rn as nat, self.field as nat);
            // r.numer * value.denom  ==  nm * dinv * dm  ==  nm * g  (mod f)
            lemma_mul_mod_noop_general(rn as int, value.denom as int, f);
            assert((rn as int * (value.denom as int % f)) % f == (rn as int * dm as int) % f);
            lemma_mul_mod_noop_general((nm * dinv) as int, dm as int, f);
            assert((nm as int * dinv as int * (dm as int)) % f == (nm as int * (dm as int
                * dinv as int)) % f) by (nonlinear_arith);
            lemma_mul_mod_noop_general(nm as int, (dm as int * dinv as int), f);
            assert((dm as int * dinv as int) % f == g % f);
            lemma_mul_mod_noop_general(nm as int, g, f);
            lemma_mul_mod_noop_general(value.numer as int, g, f);
            assert((r.numer * value.denom) % f == (value.numer * g) % f);
            // A canonical field element reduces to itself.
            if is_field_element(value, f) {
                crate::number_theory::lemma_gcd_one_right(self.field as nat);
                assert(g == 1);
                if self.field >= 2 {
                    lemma_small_mod(1nat, self.field as nat);
                    assert(dm == 1);
                    assert(gcd(fw as nat, dm as nat) == 1);
                    assert((dm as int * dinv as int) % (fw as int) == 1);
                    assert(dm as int * dinv as int == dinv as int) by (nonlinear_arith)
                        requires
                            dm == 1u64,
                    ;
                    lemma_small_mod(dinv as nat, self.field as nat);
                    assert(dinv == 1);
                    lemma_small_mod(value.numer as nat, self.field as nat);
                    assert(nm as int == value.numer);
                    lemma_small_mod(nm as nat, self.field as nat);
                    assert(rn as int == value.numer);
                } else {
                    assert(value.numer == 0 && rn == 0);
                }
            }
        }
        r
    }

    /// The extended Euclidean algorithm, run on `(m, a)`.
    ///
    /// The result is the canonical Bezout coefficient of `a`, normalized
    /// into `[0, m)`: multiplying `a` by it gives `gcd(m, a)` modulo `m`,
    /// which is the inverse of `a` exactly when the two are coprime.  When
    /// they are not, no inverse exists and the result satisfies only the
    /// gcd congruence — the caller gets no warning, as the reduction
    /// routine's contract reflects.
    pub fn mod_inverse(a: u64, m: u64) -> (r: u64)
        requires
            1 <= m,
            a < m,
        ensures
            r < m,
            (a as int * r as int) % (m as int) == (gcd(m as nat, a as nat) as int) % (m as int),
            gcd(m as nat, a as nat) == 1 && a >= 1 ==> (a as int * r as int) % (m as int) == 1,
    {
        let m0: Ghost<int> = Ghost(m as int);
        let a0: Ghost<int> = Ghost(a as int);
        let mut big_r: u64 = m;
        let mut small_r: u64 = a;
        let mut big_s: i128 = 0;
        let mut small_s: i128 = 1;
        let ghost mut bu: int = -1;
        let ghost mut bv: int = 0;
        while small_r != 0
            invariant
                m0@ == m as int,
                a0@ == a as int,
                m >= 1,
                small_r < big_r,
                big_r <= m,
                gcd(big_r as nat, small_r as nat) == gcd(m as nat, a as nat),
                a0@ * big_s == big_r + bu * m0@,
                a0@ * small_s == small_r + bv * m0@,
                (small_s >= 1 && big_s <= 0 && big_r * small_s - small_r * big_s == m0@)
                    || (small_s <= -1 && big_s >= 0 && big_r * small_s - small_r * big_s
                    == -m0@),
                big_s == 0 || 2 * abs(big_s as int) <= m0@,
            decreases small_r,
        {
            let q: u64 = big_r / small_r;
            let new_r: u64 = big_r % small_r;
            proof {
                lemma_fundamental_div_mod(big_r as int, small_r as int);
                lemma_mod_division_less_than_divisor(big_r as int, small_r as int);
                assert(q >= 1 && (q as int) * (small_r as int) <= big_r as int)
                    by (nonlinear_arith)
                    requires
                        big_r as int == (small_r as int) * (q as int) + new_r as int,
                        1 <= small_r,
                        small_r < big_r,
                        new_r < small_r,
                ;
                // |q * small_s| stays within m: the determinant invariant
                // bounds big_r * |small_s| by m, and q <= big_r.
                assert(big_r as int * abs(small_s as int) <= m0@) by (nonlinear_arith)
                    requires
                        (small_s >= 1 && big_s <= 0 && big_r as int * small_s - small_r as int
                            * big_s == m0@) || (small_s <= -1 && big_s >= 0 && big_r as int
                            * small_s - small_r as int * big_s == -m0@),
                        small_s >= 1 ==> abs(small_s as int) == small_s as int,
                        small_s <= -1 ==> abs(small_s as int) == -(small_s as int),
                        big_r >= 1,
                        small_r >= 0,
                ;
                assert(-m0@ <= (q as int) * (small_s as int) <= m0@) by (nonlinear_arith)
                    requires
                        big_r as int * abs(small_s as int) <= m0@,
                        small_s >= 1 ==> abs(small_s as int) == small_s as int,
                        small_s <= -1 ==> abs(small_s as int) == -(small_s as int),
                        small_s != 0,
                        q as int <= big_r as int,
                        q >= 1,
                ;
            }
            let qs: i128 = (q as i128) * (small_s as i128);
            let new_s: i128 = big_s - qs;
            let ghost new_v: int = bu - (q as int) * bv;
            proof {
                assert(a0@ * new_s == new_r + new_v * m0@) by (nonlinear_arith)
                    requires
                        a0@ * big_s == big_r + bu * m0@,
                        a0@ * small_s == small_r + bv * m0@,
                        new_s as int == big_s - (q as int) * (small_s as int),
                        new_r as int == big_r - (q as int) * (small_r as int),
                        new_v == bu - (q as int) * bv,
                ;
                assert((small_r as int) * new_s - (new_r as int) * small_s == -(
                (big_r as int) * small_s - (small_r as int) * big_s)) by (nonlinear_arith)
                    requires
                        new_s as int == big_s - (q as int) * (small_s as int),
                        new_r as int == big_r - (q as int) * (small_r as int),
                ;
                assert((small_s >= 1 ==> new_s <= -1) && (small_s <= -1 ==> new_s >= 1))
                    by (nonlinear_arith)
                    requires
                        new_s as int == big_s - (q as int) * (small_s as int),
                        q >= 1,
                        small_s >= 1 ==> big_s <= 0,
                        small_s <= -1 ==> big_s >= 0,
                ;
                assert(2 * abs(small_s as int) <= m0@) by (nonlinear_arith)
                    requires
                        big_r as int * abs(small_s as int) <= m0@,
                        big_r >= 2,
                        abs(small_s as int) >= 1,
                ;
                assert(gcd(small_r as nat, new_r as nat) == gcd(big_r as nat, small_r as nat));
            }
            big_r = small_r;
            small_r = new_r;
            big_s = small_s;
            small_s = new_s;
            proof {
                bu = bv;
                bv = new_v;
            }
        }
        proof {
            assert(gcd(big_r as nat, 0nat) == big_r as nat);
        }
        while big_s < 0
            invariant
                m >= 1,
                a0@ == a as int,
                m0@ == m as int,
                a0@ * big_s == big_r + bu * m0@,
                -m0@ <= big_s < m0@,
                big_r as nat == gcd(m as nat, a as nat),
                big_r <= m,
            decreases (if big_s < 0 { 1int } else { 0int }),
        {
            big_s = big_s + (m as i128);
            proof {
                bu = bu + a0@;
                assert(a0@ * big_s == big_r + bu * m0@) by (nonlinear_arith)
                    requires
                        a0@ * (big_s - m0@) == big_r + (bu - a0@) * m0@,
                ;
            }
        }
        let r: u64 = big_s as u64;
        proof {
            lemma_mod_multiples_vanish(bu, big_r as int, m as int);
            assert(a0@ * r == bu * m0@ + big_r);
            if gcd(m as nat, a as nat) == 1 && a >= 1 {
                lemma_small_mod(1nat, m as nat);
            }
        }
        r
    }

    /// Scans `1, 2, ..., field - 1` for the first value whose square is
    /// congruent to `target`, and reports it if the scan finds one.
    ///
    /// The scan is exhaustive over that range — a `None` means no value in
    /// `[1, field)` squares to `target` — but zero is never tried, so a
    /// target of zero is found only when some nonzero value also squares to
    /// it.
    pub fn find_modular_square_root(target: u32, field: u32) -> (root: Option<u32>)
        requires
            field >= 1,
        ensures
            match root {
                Some(x) => 1 <= x < field && (x as int * x as int) % (field as int)
                    == target as int && forall|y: int|
                    1 <= y < x ==> #[trigger] ((y * y) % (field as int)) != target as int,
                None => forall|y: int|
                    1 <= y < field ==> #[trigger] ((y * y) % (field as int)) != target as int,
            },
    {
        let mut x: u32 = 1;
        while x < field
            invariant
                field >= 1,
                1 <= x,
                x <= field || x == 1,
                forall|y: int| 1 <= y < x ==> #[trigger] ((y * y) % (field as int)) != target as int,
            decreases field - x,
        {
            proof {
                assert((x as int) * (x as int) < 0x1_0000_0000_0000_0000) by (nonlinear_arith)
                    requires
                        x < 0x1_0000_0000u64,
                ;
            }
            let sq: u64 = ((x as u64) * (x as u64)) % (field as u64);
            if sq == target as u64 {
                return Some(x);
            }
            x = x + 1;
        }
        None
    }

}

/// An integer-valued rational (denominator one) reduces to its residue:
/// specializes the reduction contract, whose gcd factor is one because a
/// denominator of one is invertible under every modulus.
proof fn lemma_reduce_integer(m: nat, v: Rational, r: Rational)
    requires
        m >= 1,
        v.denom == 1,
        is_field_element(r, m as int),
        (r.numer * v.denom) % (m as int) == (v.numer * gcd(
            m,
            ((v.denom as int) % (m as int)) as nat,
        )) % (m as int),
    ensures
        r == reduced_integer(v.numer as int, m as int),
{
    crate::number_theory::lemma_gcd_one_right(m);
    assert(gcd(m, ((v.denom as int) % (m as int)) as nat) == 1);
    assert((r.numer as int) % (m as int) == (v.numer as int) % (m as int));
    lemma_small_mod(r.numer as nat, m);
}

} // verus!
