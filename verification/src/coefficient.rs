//! Numeric coefficients and their packed encoding.
//!
//! A coefficient is an exact rational, an element of a finite field together
//! with the index of that field, or a serialized rational function together
//! with the index of the variable list it is written over.
//!
//! A rational is a packed pair of the numerator's magnitude and the
//! denominator, with the sign in the top bit of the descriptor. A
//! finite-field element is the byte `FIN_NUM` and the packed pair of element
//! and field index. A rational function is the byte `RAT_POLY`, the packed
//! pair of variable-list index and body length, and the body.

use crate::buffer::{advance, append, get_u8, overwrite, put_u8, set_u8};
use crate::packed::{
    agree, get_frac_u64, get_packed_size, has_pair, lemma_agree_index, lemma_agree_skip,
    lemma_packed_pair_parts, lemma_packed_pair_reads, lemma_pair_bounds, lemma_pair_disc,
    lemma_pair_prefix, lemma_sign_keeps_codes, num_code, NUM_MASK, packed_pair, packed_size,
    pair_first, pair_len, pair_ok, pair_second, SIGN, write_packed, write_packed_fixed,
};
use vstd::prelude::*;
use vstd::slice::slice_subrange;

verus! {

pub const FIN_NUM: u8 = 5;

pub const RAT_POLY: u8 = 8;

/// A coefficient as a mathematical value.
pub enum CoeffValue {
    /// Numerator and denominator.
    Rational(i64, u64),
    /// Element and index of the field.
    FiniteField(u64, u64),
    /// Index of the variable list and the serialized body.
    RationalPolynomial(u64, Seq<u8>),
}

/// An owned coefficient.
#[derive(Debug, Clone, PartialEq, Eq, Hash)]
pub enum Coefficient {
    /// Numerator and denominator.
    Rational(i64, u64),
    /// Element and index of the field.
    FiniteField(u64, u64),
    /// Index of the variable list and the serialized body.
    RationalPolynomial(u64, Vec<u8>),
}

/// A coefficient read from an encoding; the body of a rational function is
/// borrowed from it.
#[derive(Debug, Clone, Copy, PartialEq, Eq, Hash)]
pub enum CoefficientView<'a> {
    /// Numerator and denominator.
    Rational(i64, u64),
    /// Element and index of the field.
    FiniteField(u64, u64),
    /// Index of the variable list and the serialized body.
    RationalPolynomial(u64, &'a [u8]),
}

impl View for Coefficient {
    type V = CoeffValue;

    open spec fn view(&self) -> CoeffValue {
        match self {
            Coefficient::Rational(n, d) => CoeffValue::Rational(*n, *d),
            Coefficient::FiniteField(e, i) => CoeffValue::FiniteField(*e, *i),
            Coefficient::RationalPolynomial(v, body) => CoeffValue::RationalPolynomial(*v, body@),
        }
    }
}

impl<'a> View for CoefficientView<'a> {
    type V = CoeffValue;

    open spec fn view(&self) -> CoeffValue {
        match self {
            CoefficientView::Rational(n, d) => CoeffValue::Rational(*n, *d),
            CoefficientView::FiniteField(e, i) => CoeffValue::FiniteField(*e, *i),
            CoefficientView::RationalPolynomial(v, body) => CoeffValue::RationalPolynomial(
                *v,
                body@,
            ),
        }
    }
}

/// The absolute value of `n`.
pub open spec fn magnitude(n: i64) -> nat {
    if n < 0 {
        (-(n as int)) as nat
    } else {
        n as nat
    }
}

/// The encoding of the fraction `n / d`: the pair of `n`'s magnitude and
/// `d`, with the sign bit set for a negative `n`.
pub open spec fn packed_frac(n: i64, d: u64) -> Seq<u8> {
    let p = packed_pair(magnitude(n), d as nat);
    if n < 0 {
        p.update(0, p[0] | SIGN)
    } else {
        p
    }
}

/// The encoding of a coefficient.
pub open spec fn coeff_bytes(c: CoeffValue) -> Seq<u8> {
    match c {
        CoeffValue::Rational(n, d) => packed_frac(n, d),
        CoeffValue::FiniteField(e, i) => seq![FIN_NUM] + packed_pair(e as nat, i as nat),
        CoeffValue::RationalPolynomial(v, body) => seq![RAT_POLY] + packed_pair(
            v as nat,
            body.len(),
        ) + body,
    }
}

/// Whether the magnitude stored in the pair that starts `s` gives, with the
/// pair's sign, a numerator of 64 bits.
pub open spec fn frac_in_range(s: Seq<u8>) -> bool {
    if s[0] & SIGN != 0 {
        pair_first(s) <= 0x8000_0000_0000_0000
    } else {
        pair_first(s) <= 0x7fff_ffff_ffff_ffff
    }
}

/// The numerator of the fraction that starts `s`.
pub open spec fn frac_num(s: Seq<u8>) -> i64 {
    if s[0] & SIGN != 0 {
        (-(pair_first(s) as int)) as i64
    } else {
        pair_first(s) as i64
    }
}

/// The number of bytes of the coefficient that starts `s`.
pub open spec fn coeff_len(s: Seq<u8>) -> nat {
    if s[0] == RAT_POLY {
        1 + pair_len(s.skip(1)) + pair_second(s.skip(1))
    } else if s[0] & NUM_MASK == FIN_NUM {
        1 + pair_len(s.skip(1))
    } else {
        pair_len(s)
    }
}

/// Whether `s` starts with a complete coefficient.
pub open spec fn coeff_ok(s: Seq<u8>) -> bool {
    &&& s.len() >= 1
    &&& if s[0] == RAT_POLY {
        pair_ok(s.skip(1)) && coeff_len(s) <= s.len()
    } else if s[0] & NUM_MASK == FIN_NUM {
        pair_ok(s.skip(1))
    } else {
        pair_ok(s) && frac_in_range(s)
    }
}

/// The coefficient that starts `s`.
pub open spec fn coeff_value(s: Seq<u8>) -> CoeffValue {
    if s[0] == RAT_POLY {
        let p = s.skip(1);
        CoeffValue::RationalPolynomial(
            pair_first(p) as u64,
            p.subrange(pair_len(p) as int, (pair_len(p) + pair_second(p)) as int),
        )
    } else if s[0] & NUM_MASK == FIN_NUM {
        CoeffValue::FiniteField(pair_first(s.skip(1)) as u64, pair_second(s.skip(1)) as u64)
    } else {
        CoeffValue::Rational(frac_num(s), pair_second(s) as u64)
    }
}

/// The first byte of a coefficient tells its kind apart.
proof fn lemma_kind_bytes()
    by (bit_vector)
    ensures
        5u8 & 0x0f == 5,
        8u8 & 0x0f == 8,
        forall|d: u8| d & 0x0f == 5 ==> d != 8,
{
}

/// A complete coefficient has at least two bytes and ends inside `s`.
pub proof fn lemma_coeff_bounds(s: Seq<u8>)
    requires
        coeff_ok(s),
    ensures
        2 <= coeff_len(s) <= s.len(),
{
    if s[0] == RAT_POLY || s[0] & NUM_MASK == FIN_NUM {
        lemma_pair_bounds(s.skip(1));
    } else {
        lemma_pair_bounds(s);
    }
}

/// A coefficient is read from its own bytes alone.
pub proof fn lemma_coeff_prefix(s: Seq<u8>, t: Seq<u8>)
    requires
        coeff_ok(s),
        agree(s, t, coeff_len(s) as int),
    ensures
        coeff_ok(t),
        coeff_len(t) == coeff_len(s),
        coeff_value(t) == coeff_value(s),
{
    lemma_coeff_bounds(s);
    lemma_agree_index(s, t, coeff_len(s) as int);
    assert(s[0] == t[0]);
    if s[0] == RAT_POLY {
        let p = s.skip(1);
        let q = t.skip(1);
        lemma_agree_skip(s, t, 1, coeff_len(s) - 1);
        lemma_agree_index(p, q, coeff_len(s) - 1);
        lemma_pair_prefix(p, q);
    } else if s[0] & NUM_MASK == FIN_NUM {
        lemma_agree_skip(s, t, 1, coeff_len(s) - 1);
        lemma_pair_prefix(s.skip(1), t.skip(1));
    } else {
        lemma_pair_prefix(s, t);
    }
}

/// Decoding what was encoded: whatever follows the encoding of `c`, a reader
/// finds a complete coefficient of exactly the encoding's length, and `c`.
pub proof fn lemma_coeff_bytes_reads(c: CoeffValue, s: Seq<u8>)
    requires
        c matches CoeffValue::RationalPolynomial(_, body) ==> body.len() <= u64::MAX,
        agree(coeff_bytes(c), s, coeff_bytes(c).len() as int),
    ensures
        coeff_ok(s),
        coeff_len(s) == coeff_bytes(c).len(),
        coeff_value(s) == c,
{
    let e = coeff_bytes(c);
    lemma_agree_index(e, s, e.len() as int);
    lemma_kind_bytes();
    match c {
        CoeffValue::Rational(n, d) => {
            let m = magnitude(n);
            let p = packed_pair(m, d as nat);
            lemma_packed_pair_parts(m, d as nat);
            lemma_pair_disc(m, d as nat);
            lemma_packed_pair_reads(m, d as nat, p);
            lemma_sign_keeps_codes(p[0]);
            assert(pair_ok(e) && pair_len(e) == p.len() && pair_first(e) == m && pair_second(e)
                == d) by {
                if n < 0 {
                    let ghost_w = pair_len(p) as int;
                    assert(e.subrange(1, ghost_w) =~= p.subrange(1, ghost_w));
                    assert(forall|i: int, j: int|
                        1 <= i <= j <= ghost_w ==> #[trigger] e.subrange(i, j) =~= p.subrange(
                            i,
                            j,
                        ));
                }
            }
            lemma_pair_prefix(e, s);
            assert(s[0] == e[0]);
            assert(num_code(s[0]) != 5 && s[0] != 8) by {
                if s[0] == 8 {
                    assert(num_code(s[0]) == 8);
                }
            }
        },
        CoeffValue::FiniteField(el, i) => {
            let p = packed_pair(el as nat, i as nat);
            lemma_packed_pair_parts(el as nat, i as nat);
            assert(e.len() == 1 + p.len());
            assert(s[0] == e[0]);
            assert(e.skip(1) =~= p);
            lemma_agree_skip(e, s, 1, p.len() as int);
            lemma_packed_pair_reads(el as nat, i as nat, s.skip(1));
        },
        CoeffValue::RationalPolynomial(v, body) => {
            let p = packed_pair(v as nat, body.len());
            lemma_packed_pair_parts(v as nat, body.len());
            assert(e.len() == 1 + p.len() + body.len());
            assert(s[0] == e[0]);
            let q = s.skip(1);
            lemma_agree_skip(e, s, 1, e.len() - 1);
            lemma_agree_index(e.skip(1), q, e.len() - 1);
            assert(e.skip(1).subrange(0, p.len() as int) =~= p);
            assert(agree(p, q, p.len() as int)) by {
                assert(p.subrange(0, p.len() as int) =~= p);
            }
            lemma_packed_pair_reads(v as nat, body.len(), q);
            assert(q.subrange(p.len() as int, (p.len() + body.len()) as int) =~= body) by {
                assert(e.skip(1).subrange(p.len() as int, (p.len() + body.len()) as int) =~= body);
            }
        },
    }
}

/// The magnitude of `n`.
fn abs_of(n: i64) -> (r: u64)
    ensures
        r == magnitude(n),
{
    if n >= 0 {
        n as u64
    } else if n == i64::MIN {
        0x8000_0000_0000_0000
    } else {
        (-n) as u64
    }
}

/// The number of bytes that the encoding of the fraction `num / den` takes.
pub fn get_frac_size(num: i64, den: u64) -> (r: u64)
    ensures
        r == packed_frac(num, den).len(),
        2 <= r <= 17,
{
    get_packed_size(abs_of(num), den)
}

/// Appends the encoding of the fraction `num / den` to `dest`.
pub fn write_frac(num: i64, den: u64, dest: &mut Vec<u8>)
    ensures
        final(dest)@ == old(dest)@ + packed_frac(num, den),
{
    let p: usize = dest.len();
    write_packed(abs_of(num), den, dest);
    proof {
        lemma_packed_pair_parts(magnitude(num), den as nat);
    }
    if num < 0 {
        let d = dest[p];
        dest[p] = d | SIGN;
    }
    assert(dest@ =~= old(dest)@ + packed_frac(num, den));
}

/// Writes the encoding of the fraction `num / den` over the first bytes of
/// `dest`, which must be long enough to take it; the bytes behind it stay.
pub fn write_frac_fixed(num: i64, den: u64, dest: &mut [u8])
    requires
        packed_size(magnitude(num), den as nat) <= old(dest)@.len(),
    ensures
        final(dest)@ == overwrite(old(dest)@, 0, packed_frac(num, den)),
{
    write_packed_fixed(abs_of(num), den, dest);
    proof {
        lemma_packed_pair_parts(magnitude(num), den as nat);
    }
    if num < 0 {
        let d = dest[0];
        set_u8(dest, 0, d | SIGN);
    }
    assert(dest@ =~= overwrite(old(dest)@, 0, packed_frac(num, den)));
}

/// Reads the fraction that starts `source`: numerator, denominator, and the
/// slice behind it.
pub fn get_frac_i64<'a>(source: &'a [u8]) -> (r: (i64, u64, &'a [u8]))
    requires
        pair_ok(source@),
        frac_in_range(source@),
    ensures
        r.0 == frac_num(source@),
        r.1 == pair_second(source@),
        r.2@ == source@.skip(pair_len(source@) as int),
{
    let disc = source[0];
    let (mag, den, rest) = get_frac_u64(source);
    if disc & SIGN != 0 {
        if mag == 0x8000_0000_0000_0000 {
            (i64::MIN, den, rest)
        } else {
            (-(mag as i64), den, rest)
        }
    } else {
        (mag as i64, den, rest)
    }
}

/// Whether `source` starts with a complete coefficient.
pub fn has_coeff(source: &[u8]) -> (r: bool)
    ensures
        r == coeff_ok(source@),
{
    if source.len() < 1 {
        return false;
    }
    let disc = source[0];
    if disc == RAT_POLY {
        let inner = slice_subrange(source, 1, source.len());
        if !has_pair(inner) {
            return false;
        }
        let (_, size, body) = get_frac_u64(inner);
        proof {
            lemma_pair_bounds(inner@);
        }
        size <= body.len() as u64
    } else if disc & NUM_MASK == FIN_NUM {
        has_pair(slice_subrange(source, 1, source.len()))
    } else {
        if !has_pair(source) {
            return false;
        }
        let (mag, _, _) = get_frac_u64(source);
        if disc & SIGN != 0 {
            mag <= 0x8000_0000_0000_0000
        } else {
            mag <= 0x7fff_ffff_ffff_ffff
        }
    }
}

/// Reads the coefficient that starts `source`, and gives the slice behind
/// it.
pub fn get_coeff_view<'a>(source: &'a [u8]) -> (r: (CoefficientView<'a>, &'a [u8]))
    requires
        coeff_ok(source@),
    ensures
        r.0@ == coeff_value(source@),
        r.1@ == source@.skip(coeff_len(source@) as int),
{
    let disc = source[0];
    if disc == RAT_POLY {
        let (_, inner) = get_u8(source);
        let (vars, size, body) = get_frac_u64(inner);
        assert(size <= body.len());
        let n = size as usize;
        let data = slice_subrange(body, 0, n);
        let rest = advance(body, n);
        proof {
            let pl = pair_len(inner@) as int;
            assert(data@ =~= inner@.subrange(pl, pl + n));
            assert(rest@ =~= source@.skip(coeff_len(source@) as int));
        }
        (CoefficientView::RationalPolynomial(vars, data), rest)
    } else if disc & NUM_MASK == FIN_NUM {
        let (_, inner) = get_u8(source);
        let (element, field, rest) = get_frac_u64(inner);
        proof {
            assert(rest@ =~= source@.skip(coeff_len(source@) as int));
        }
        (CoefficientView::FiniteField(element, field), rest)
    } else {
        let (num, den, rest) = get_frac_i64(source);
        (CoefficientView::Rational(num, den), rest)
    }
}

/// Skips the coefficient that starts `source`: gives the slice behind it.
pub fn skip_rational<'a>(source: &'a [u8]) -> (r: &'a [u8])
    requires
        coeff_ok(source@),
    ensures
        r@ == source@.skip(coeff_len(source@) as int),
{
    let (disc, inner) = get_u8(source);
    if disc == RAT_POLY {
        let (_, size, body) = get_frac_u64(inner);
        assert(size <= body.len());
        let n = size as usize;
        let rest = advance(body, n);
        proof {
            let pl = pair_len(inner@) as int;
            assert(body@ =~= source@.skip(1 + pl));
            assert(rest@ =~= source@.skip(1 + pl + n));
        }
        rest
    } else if disc & NUM_MASK == FIN_NUM {
        let (_, _, rest) = get_frac_u64(inner);
        proof {
            assert(rest@ =~= source@.skip(coeff_len(source@) as int));
        }
        rest
    } else {
        let (_, _, rest) = get_frac_u64(source);
        rest
    }
}

impl Coefficient {
    /// The rational number zero.
    pub fn zero() -> (r: Coefficient)
        ensures
            r@ == CoeffValue::Rational(0, 1),
    {
        Coefficient::Rational(0, 1)
    }

    /// The rational number one.
    pub fn one() -> (r: Coefficient)
        ensures
            r@ == CoeffValue::Rational(1, 1),
    {
        Coefficient::Rational(1, 1)
    }

    /// The number of bytes that the encoding of the coefficient takes.
    pub fn get_packed_size(&self) -> (r: u64)
        requires
            self matches Coefficient::RationalPolynomial(_, body) ==> body@.len() + 18
                <= u64::MAX,
        ensures
            r == coeff_bytes(self@).len(),
    {
        match self {
            Coefficient::Rational(n, d) => get_frac_size(*n, *d),
            Coefficient::FiniteField(e, i) => 1 + get_packed_size(*e, *i),
            Coefficient::RationalPolynomial(v, body) => {
                let n = body.len() as u64;
                1 + get_packed_size(*v, n) + n
            },
        }
    }

    /// Appends the encoding of the coefficient to `dest`.
    pub fn write_packed(&self, dest: &mut Vec<u8>)
        ensures
            final(dest)@ == old(dest)@ + coeff_bytes(self@),
    {
        match self {
            Coefficient::Rational(n, d) => {
                write_frac(*n, *d, dest);
            },
            Coefficient::FiniteField(e, i) => {
                put_u8(dest, FIN_NUM);
                write_packed(*e, *i, dest);
                assert(dest@ =~= old(dest)@ + coeff_bytes(self@));
            },
            Coefficient::RationalPolynomial(v, body) => {
                put_u8(dest, RAT_POLY);
                write_packed(*v, body.len() as u64, dest);
                append(dest, body.as_slice());
                assert(dest@ =~= old(dest)@ + coeff_bytes(self@));
            },
        }
    }
}

impl<'a> CoefficientView<'a> {
    /// An owned copy of the coefficient.
    pub fn to_owned(&self) -> (r: Coefficient)
        ensures
            r@ == self@,
    {
        match self {
            CoefficientView::Rational(n, d) => Coefficient::Rational(*n, *d),
            CoefficientView::FiniteField(e, i) => Coefficient::FiniteField(*e, *i),
            CoefficientView::RationalPolynomial(v, body) => {
                let mut copy: Vec<u8> = Vec::new();
                append(&mut copy, body);
                assert(copy@ =~= body@);
                Coefficient::RationalPolynomial(*v, copy)
            },
        }
    }
}

} // verus!
