//! Arithmetic on the rational coefficients that fit in 64 bits.
//!
//! A sum or a product is given in lowest terms, or not at all where it does
//! not fit: the encoding has no number wider than 64 bits.

use crate::builder::Num;
use crate::coefficient::{Coefficient, CoefficientView, CoeffValue, magnitude};
use crate::node::num_node;
use crate::view::NumView;
use vstd::prelude::*;

verus! {

/// The greatest common divisor of `a` and `b`, by Euclid's algorithm.
pub open spec fn gcd(a: nat, b: nat) -> nat
    decreases b,
{
    if b == 0 {
        a
    } else {
        gcd(b, a % b)
    }
}

/// The absolute value of `n`.
pub open spec fn abs(n: int) -> nat {
    if n < 0 {
        (-n) as nat
    } else {
        n as nat
    }
}

/// The fraction `num / den` with numerator and denominator divided by
/// their greatest common divisor.
pub open spec fn reduced(num: int, den: nat) -> (int, nat) {
    let g = gcd(abs(num), den);
    if num < 0 {
        (-((abs(num) / g) as int), den / g)
    } else {
        ((abs(num) / g) as int, den / g)
    }
}

/// The sum of the fractions `n1 / d1` and `n2 / d2`, in lowest terms.
pub open spec fn sum_of(n1: i64, d1: u64, n2: i64, d2: u64) -> (int, nat) {
    reduced(n1 * d2 + n2 * d1, (d1 * d2) as nat)
}

/// The product of the fractions `n1 / d1` and `n2 / d2`, in lowest terms.
pub open spec fn product_of(n1: i64, d1: u64, n2: i64, d2: u64) -> (int, nat) {
    reduced(n1 * n2, (d1 * d2) as nat)
}

/// Whether the fraction `f` can be stored: the numerator in a signed and the
/// denominator in an unsigned number of 64 bits.
pub open spec fn storable(f: (int, nat)) -> bool {
    i64::MIN <= f.0 <= i64::MAX && f.1 <= u64::MAX
}

/// The sum of two coefficients, where both are rationals with a
/// denominator other than zero and the sum can be stored.
pub open spec fn coeff_sum(a: CoeffValue, b: CoeffValue) -> Option<CoeffValue> {
    match (a, b) {
        (CoeffValue::Rational(n1, d1), CoeffValue::Rational(n2, d2)) => {
            if d1 != 0 && d2 != 0 && storable(sum_of(n1, d1, n2, d2)) {
                Some(
                    CoeffValue::Rational(
                        sum_of(n1, d1, n2, d2).0 as i64,
                        sum_of(n1, d1, n2, d2).1 as u64,
                    ),
                )
            } else {
                None
            }
        },
        _ => None,
    }
}

/// The product of two coefficients, where both are rationals with a
/// denominator other than zero and the product can be stored.
pub open spec fn coeff_product(a: CoeffValue, b: CoeffValue) -> Option<CoeffValue> {
    match (a, b) {
        (CoeffValue::Rational(n1, d1), CoeffValue::Rational(n2, d2)) => {
            if d1 != 0 && d2 != 0 && storable(product_of(n1, d1, n2, d2)) {
                Some(
                    CoeffValue::Rational(
                        product_of(n1, d1, n2, d2).0 as i64,
                        product_of(n1, d1, n2, d2).1 as u64,
                    ),
                )
            } else {
                None
            }
        },
        _ => None,
    }
}

/// A product of two numbers of 64 bits fits in 128 bits.
proof fn lemma_product_bound(a: nat, b: nat)
    requires
        a <= 0x8000_0000_0000_0000,
        b <= u64::MAX,
    ensures
        a * b <= 0x7fff_ffff_ffff_ffff_8000_0000_0000_0000,
{
    assert(a * b <= 0x8000_0000_0000_0000 * 0xffff_ffff_ffff_ffff) by (nonlinear_arith)
        requires
            a <= 0x8000_0000_0000_0000,
            b <= 0xffff_ffff_ffff_ffff,
    ;
}

proof fn lemma_product_bound_wide(a: nat, b: nat)
    requires
        a <= u64::MAX,
        b <= u64::MAX,
    ensures
        a * b <= 0xffff_ffff_ffff_fffe_0000_0000_0000_0001,
{
    assert(a * b <= 0xffff_ffff_ffff_ffff * 0xffff_ffff_ffff_ffff) by (nonlinear_arith)
        requires
            a <= 0xffff_ffff_ffff_ffff,
            b <= 0xffff_ffff_ffff_ffff,
    ;
}

/// The greatest common divisor of two numbers that are not both zero is
/// not zero.
proof fn lemma_gcd_positive(a: nat, b: nat)
    requires
        a > 0 || b > 0,
    ensures
        gcd(a, b) > 0,
    decreases b,
{
    if b != 0 {
        lemma_gcd_positive(b, a % b);
    }
}

/// The greatest common divisor of `a` and `b`.
fn gcd_of(a: u128, b: u128) -> (r: u128)
    ensures
        r == gcd(a as nat, b as nat),
{
    let mut x = a;
    let mut y = b;
    while y != 0
        invariant
            gcd(x as nat, y as nat) == gcd(a as nat, b as nat),
        decreases y,
    {
        let t = x % y;
        x = y;
        y = t;
    }
    x
}

/// The magnitude of `n`.
fn magnitude_of(n: i64) -> (r: u128)
    ensures
        r == magnitude(n),
        r == abs(n as int),
        r <= 0x8000_0000_0000_0000,
{
    if n >= 0 {
        n as u128
    } else if n == i64::MIN {
        0x8000_0000_0000_0000
    } else {
        (-n) as u128
    }
}

/// The fraction with the sign `negative`, the magnitude `mag` of the
/// numerator and the denominator `den`, in lowest terms, if it can be
/// stored.
fn reduce(negative: bool, mag: u128, den: u128) -> (r: Option<(i64, u64)>)
    requires
        den > 0,
        negative ==> mag > 0,
    ensures
        r is Some == storable(
            reduced(
                if negative {
                    -(mag as int)
                } else {
                    mag as int
                },
                den as nat,
            ),
        ),
        r is Some ==> (r.unwrap().0 as int, r.unwrap().1 as nat) == reduced(
            if negative {
                -(mag as int)
            } else {
                mag as int
            },
            den as nat,
        ),
{
    proof {
        lemma_gcd_positive(mag as nat, den as nat);
    }
    let g = gcd_of(mag, den);
    let rm = mag / g;
    let rd = den / g;
    if rd > 0xffff_ffff_ffff_ffff {
        return None;
    }
    if negative {
        if rm > 0x8000_0000_0000_0000 {
            None
        } else if rm == 0x8000_0000_0000_0000 {
            Some((i64::MIN, rd as u64))
        } else {
            Some((-(rm as i64), rd as u64))
        }
    } else {
        if rm > 0x7fff_ffff_ffff_ffff {
            None
        } else {
            Some((rm as i64, rd as u64))
        }
    }
}

/// The sum of the fractions `n1 / d1` and `n2 / d2` in lowest terms, if
/// it can be stored.
pub fn add_fractions(n1: i64, d1: u64, n2: i64, d2: u64) -> (r: Option<(i64, u64)>)
    requires
        d1 != 0,
        d2 != 0,
    ensures
        r is Some == storable(sum_of(n1, d1, n2, d2)),
        r is Some ==> (r.unwrap().0 as int, r.unwrap().1 as nat) == sum_of(n1, d1, n2, d2),
{
    let a = magnitude_of(n1);
    let b = magnitude_of(n2);
    proof {
        lemma_product_bound(a as nat, d2 as nat);
        lemma_product_bound(b as nat, d1 as nat);
        lemma_product_bound_wide(d1 as nat, d2 as nat);
        assert(d1 * d2 > 0) by (nonlinear_arith)
            requires
                d1 > 0,
                d2 > 0,
        ;
        assert(n1 * d2 == if n1 < 0 {
            -(a * d2)
        } else {
            a * d2
        }) by (nonlinear_arith)
            requires
                a == abs(n1 as int),
        ;
        assert(n2 * d1 == if n2 < 0 {
            -(b * d1)
        } else {
            b * d1
        }) by (nonlinear_arith)
            requires
                b == abs(n2 as int),
        ;
    }
    let m1 = a * (d2 as u128);
    let m2 = b * (d1 as u128);
    let den = (d1 as u128) * (d2 as u128);
    let neg1 = n1 < 0 && m1 > 0;
    let neg2 = n2 < 0 && m2 > 0;
    if neg1 == neg2 {
        reduce(neg1 && m1 + m2 > 0, m1 + m2, den)
    } else if m1 >= m2 {
        reduce(neg1 && m1 > m2, m1 - m2, den)
    } else {
        reduce(neg2, m2 - m1, den)
    }
}

/// The product of the fractions `n1 / d1` and `n2 / d2` in lowest terms,
/// if it can be stored.
pub fn mul_fractions(n1: i64, d1: u64, n2: i64, d2: u64) -> (r: Option<(i64, u64)>)
    requires
        d1 != 0,
        d2 != 0,
    ensures
        r is Some == storable(product_of(n1, d1, n2, d2)),
        r is Some ==> (r.unwrap().0 as int, r.unwrap().1 as nat) == product_of(n1, d1, n2, d2),
{
    let a = magnitude_of(n1);
    let b = magnitude_of(n2);
    proof {
        lemma_product_bound(a as nat, b as nat);
        lemma_product_bound_wide(d1 as nat, d2 as nat);
        assert(d1 * d2 > 0) by (nonlinear_arith)
            requires
                d1 > 0,
                d2 > 0,
        ;
        assert(n1 * n2 == if (n1 < 0) != (n2 < 0) {
            -(a * b)
        } else {
            a * b
        }) by (nonlinear_arith)
            requires
                a == abs(n1 as int),
                b == abs(n2 as int),
        ;
        assert(a * b > 0 <==> a > 0 && b > 0) by (nonlinear_arith)
            requires
                a >= 0,
                b >= 0,
        ;
    }
    let mag = a * b;
    let den = (d1 as u128) * (d2 as u128);
    reduce((n1 < 0) != (n2 < 0) && mag > 0, mag, den)
}

/// The sum of two coefficients, if both are rationals with a denominator
/// other than zero and the sum can be stored.
pub fn add_coefficients(a: &CoefficientView, b: &CoefficientView) -> (r: Option<Coefficient>)
    ensures
        r is Some == coeff_sum(a@, b@) is Some,
        r is Some ==> r.unwrap()@ == coeff_sum(a@, b@).unwrap(),
{
    match (a, b) {
        (CoefficientView::Rational(n1, d1), CoefficientView::Rational(n2, d2)) => {
            if *d1 == 0 || *d2 == 0 {
                return None;
            }
            match add_fractions(*n1, *d1, *n2, *d2) {
                Some((n, d)) => Some(Coefficient::Rational(n, d)),
                None => None,
            }
        },
        _ => None,
    }
}

/// The product of two coefficients, if both are rationals with a
/// denominator other than zero and the product can be stored.
pub fn mul_coefficients(a: &CoefficientView, b: &CoefficientView) -> (r: Option<Coefficient>)
    ensures
        r is Some == coeff_product(a@, b@) is Some,
        r is Some ==> r.unwrap()@ == coeff_product(a@, b@).unwrap(),
{
    match (a, b) {
        (CoefficientView::Rational(n1, d1), CoefficientView::Rational(n2, d2)) => {
            if *d1 == 0 || *d2 == 0 {
                return None;
            }
            match mul_fractions(*n1, *d1, *n2, *d2) {
                Some((n, d)) => Some(Coefficient::Rational(n, d)),
                None => None,
            }
        },
        _ => None,
    }
}

impl Num {
    /// Adds the number under `other` to this number, and says whether that
    /// could be done: it can where both are rationals and the sum can be
    /// stored. Otherwise this number stays as it is.
    pub fn add(&mut self, other: &NumView<'_>) -> (r: bool)
        requires
            old(self).wf(),
            other.wf(),
        ensures
            final(self).wf(),
            r == coeff_sum(old(self).value(), other.value()) is Some,
            r ==> final(self)@ == num_node(coeff_sum(old(self).value(), other.value()).unwrap()),
            r ==> final(self).value() == coeff_sum(old(self).value(), other.value()).unwrap(),
            !r ==> final(self)@ == old(self)@,
    {
        let sum = add_coefficients(&self.to_num_view().get_coeff_view(), &other.get_coeff_view());
        match sum {
            Some(n) => {
                self.set_from_coeff(n);
                true
            },
            None => false,
        }
    }

    /// Multiplies this number by the number under `other`, and says
    /// whether that could be done: it can where both are rationals and the
    /// product can be stored. Otherwise this number stays as it is.
    pub fn mul(&mut self, other: &NumView<'_>) -> (r: bool)
        requires
            old(self).wf(),
            other.wf(),
        ensures
            final(self).wf(),
            r == coeff_product(old(self).value(), other.value()) is Some,
            r ==> final(self)@ == num_node(
                coeff_product(old(self).value(), other.value()).unwrap(),
            ),
            r ==> final(self).value() == coeff_product(old(self).value(), other.value()).unwrap(),
            !r ==> final(self)@ == old(self)@,
    {
        let product = mul_coefficients(
            &self.to_num_view().get_coeff_view(),
            &other.get_coeff_view(),
        );
        match product {
            Some(n) => {
                self.set_from_coeff(n);
                true
            },
            None => false,
        }
    }
}

} // verus!
