use std::borrow::Borrow;
use std::cmp::Ordering;
use std::collections::HashMap;
use symbolica_atom::atom::{Atom, InlineNum, InlineVar, KeyLookup};
use symbolica_atom::builder::{Add, Fun, Mul, Num, Pow, Var};
use symbolica_atom::coefficient::{
    get_coeff_view, get_frac_i64, get_frac_size, has_coeff, skip_rational, write_frac,
    Coefficient, CoefficientView,
};
use symbolica_atom::packed::{
    get_frac_u64, get_packed_size, get_pair_size, has_pair, write_packed, write_packed_fixed,
};
use symbolica_atom::rational::{add_fractions, mul_fractions};
use symbolica_atom::symbol::Symbol;
use symbolica_atom::view::{AtomView, ListSlice, SliceType};

fn num(n: i64, d: u64) -> Num {
    Num::new(Coefficient::Rational(n, d))
}

fn value(n: &Num) -> (i64, u64) {
    match n.to_num_view().get_coeff_view() {
        CoefficientView::Rational(a, b) => (a, b),
        _ => panic!("a rational"),
    }
}

#[test]
fn packed_pairs_take_the_fewest_bytes() {
    for (a, b, size, bytes) in [
        (0u64, 1u64, 2u64, vec![0x01u8, 0]),
        (255, 1, 2, vec![0x01, 255]),
        (256, 1, 3, vec![0x02, 0, 1]),
        (65536, 1, 5, vec![0x03, 0, 0, 1, 0]),
        (1 << 32, 1, 9, vec![0x04, 0, 0, 0, 0, 1, 0, 0, 0]),
        (9, 10, 3, vec![0x11, 9, 10]),
        (9, 0, 3, vec![0x11, 9, 0]),
        (1, 300, 4, vec![0x21, 1, 0x2c, 1]),
        (1, 70000, 6, vec![0x31, 1, 0x70, 0x11, 1, 0]),
        (1, 1 << 40, 10, vec![0x41, 1, 0, 0, 0, 0, 0, 1, 0, 0]),
    ] {
        assert_eq!(get_packed_size(a, b), size);
        let mut out = vec![0xeeu8];
        write_packed(a, b, &mut out);
        assert_eq!(&out[1..], &bytes[..]);
        let mut fixed = vec![0xaau8; size as usize + 2];
        write_packed_fixed(a, b, &mut fixed);
        assert_eq!(&fixed[..size as usize], &bytes[..]);
        assert_eq!(&fixed[size as usize..], &[0xaau8, 0xaa][..]);
        out.push(0x77);
        assert!(has_pair(&out[1..]));
        assert_eq!(get_pair_size(&out[1..]), size as usize);
        let (x, y, rest) = get_frac_u64(&out[1..]);
        assert_eq!((x, y), (a, b));
        assert_eq!(rest, &[0x77u8][..]);
    }
    assert!(!has_pair(&[]));
    assert!(!has_pair(&[0x00, 1]));
    assert!(!has_pair(&[0x05, 1]));
    assert!(!has_pair(&[0x51, 1, 1]));
    assert!(!has_pair(&[0x02, 1]));
}

#[test]
fn fractions_carry_their_sign_in_the_descriptor() {
    let mut out = Vec::new();
    write_frac(-5, 7, &mut out);
    assert_eq!(out, vec![0x91u8, 5, 7]);
    assert_eq!(get_frac_size(-5, 7), 3);
    assert_eq!(get_frac_i64(&out), (-5, 7, &[][..]));
    let mut out = Vec::new();
    write_frac(i64::MIN, 1, &mut out);
    assert_eq!(out, vec![0x84u8, 0, 0, 0, 0, 0, 0, 0, 0x80]);
    assert_eq!(get_frac_i64(&out).0, i64::MIN);
    // a magnitude that no 64-bit numerator has
    assert!(!has_coeff(&[0x04, 0, 0, 0, 0, 0, 0, 0, 0x80]));
    assert!(has_coeff(&[0x84, 0, 0, 0, 0, 0, 0, 0, 0x80]));
    assert!(!has_coeff(&[0x84, 1, 0, 0, 0, 0, 0, 0, 0x80]));
}

#[test]
fn coefficients_are_skipped_whole() {
    for c in [
        Coefficient::Rational(3, 4),
        Coefficient::FiniteField(1 << 40, 2),
        Coefficient::RationalPolynomial(70000, vec![1, 2, 3, 4, 5]),
    ] {
        let mut out = Vec::new();
        c.write_packed(&mut out);
        assert_eq!(out.len() as u64, c.get_packed_size());
        out.extend_from_slice(&[0xde, 0xad]);
        assert!(has_coeff(&out));
        assert_eq!(skip_rational(&out), &[0xdeu8, 0xad][..]);
        let (view, rest) = get_coeff_view(&out);
        assert_eq!(view.to_owned(), c);
        assert_eq!(rest, &[0xdeu8, 0xad][..]);
    }
    // a rational function that announces more bytes than there are
    assert!(!has_coeff(&[8, 0x11, 0, 3, 1, 2]));
    assert!(has_coeff(&[8, 0x11, 0, 3, 1, 2, 3]));
    assert_eq!(Coefficient::zero(), Coefficient::Rational(0, 1));
    assert_eq!(Coefficient::one(), Coefficient::Rational(1, 1));
}

#[test]
fn sums_and_products_come_in_lowest_terms() {
    assert_eq!(add_fractions(1, 2, 1, 3), Some((5, 6)));
    assert_eq!(add_fractions(1, 2, 1, 2), Some((1, 1)));
    assert_eq!(add_fractions(1, 6, 1, 3), Some((1, 2)));
    assert_eq!(add_fractions(-1, 2, 1, 2), Some((0, 1)));
    assert_eq!(add_fractions(-3, 4, 1, 4), Some((-1, 2)));
    assert_eq!(add_fractions(1, 4, -3, 4), Some((-1, 2)));
    assert_eq!(add_fractions(i64::MAX, 1, 1, 1), None);
    assert_eq!(add_fractions(i64::MIN, 1, -1, 1), None);
    assert_eq!(add_fractions(i64::MIN, 1, 0, 5), Some((i64::MIN, 1)));
    assert_eq!(add_fractions(1, u64::MAX, 1, u64::MAX - 1), None);
    assert_eq!(mul_fractions(2, 3, 3, 4), Some((1, 2)));
    assert_eq!(mul_fractions(-2, 3, 3, 4), Some((-1, 2)));
    assert_eq!(mul_fractions(-2, 3, -3, 4), Some((1, 2)));
    assert_eq!(mul_fractions(0, 3, -3, 4), Some((0, 1)));
    assert_eq!(mul_fractions(i64::MIN, 1, -1, 1), None);
    assert_eq!(mul_fractions(i64::MIN, 2, 1, 1), Some((i64::MIN / 2, 1)));
    assert_eq!(mul_fractions(1 << 40, 1, 1 << 40, 1), None);
}

#[test]
fn numbers_add_and_multiply_in_place() {
    let mut n = num(1, 2);
    assert!(n.add(&num(1, 3).to_num_view()));
    assert_eq!(value(&n), (5, 6));
    assert!(n.mul(&num(-6, 5).to_num_view()));
    assert_eq!(value(&n), (-1, 1));
    assert_eq!(n.clone().into_raw(), vec![1u8, 0x81, 1]);
    assert!(n.add(&num(1, 1).to_num_view()));
    assert!(n.to_num_view().is_zero());
    // what cannot be stored, or is no rational, leaves the number as it is
    let mut big = num(i64::MAX, 1);
    assert!(!big.add(&num(1, 1).to_num_view()));
    assert_eq!(value(&big), (i64::MAX, 1));
    let field = Num::new(Coefficient::FiniteField(3, 0));
    assert!(!big.mul(&field.to_num_view()));
    assert_eq!(value(&big), (i64::MAX, 1));
    assert!(!big.add(&num(1, 0).to_num_view()));
}

#[test]
fn symbols_come_back_in_canonical_form() {
    for id in [0u32, 255, 256, 65535, 65536, u32::MAX] {
        for level in 0u8..=3 {
            for (sym, anti, cyc) in [
                (false, false, false),
                (true, false, false),
                (false, true, false),
                (false, false, true),
            ] {
                for linear in [false, true] {
                    let s = Symbol::raw_fn(id, level, sym, anti, cyc, linear);
                    assert_eq!(Var::new(s).get_symbol(), s);
                    assert_eq!(InlineVar::new(s).as_var_view().get_symbol(), s);
                    let f = Fun::new_into(s, vec![9, 9, 9]);
                    assert_eq!(f.get_symbol(), s);
                    let v = f.to_fun_view();
                    assert_eq!(v.is_symmetric(), sym);
                    assert_eq!(v.is_antisymmetric(), anti);
                    assert_eq!(v.is_cyclesymmetric(), cyc);
                    assert_eq!(v.is_linear(), linear);
                    assert_eq!(v.get_wildcard_level(), level);
                    assert_eq!(Var::new(s).to_var_view().get_wildcard_level(), level);
                }
            }
        }
    }
    // symmetric and antisymmetric together read back as cyclesymmetric, and
    // a level above three as three
    let odd = Symbol::raw_fn(4, 9, true, true, false, false);
    let canonical = Symbol::raw_fn(4, 3, false, false, true, false);
    assert_eq!(Var::new(odd).get_symbol(), canonical);
    assert_eq!(Fun::new_into(odd, Vec::new()).get_symbol(), canonical);
    assert_eq!(canonical.get_id(), 4);
    assert_eq!(canonical.get_wildcard_level(), 3);
    assert!(canonical.is_cyclesymmetric());
    assert!(!canonical.is_symmetric() && !canonical.is_antisymmetric() && !canonical.is_linear());
    assert_eq!(Var::new(Symbol::raw_fn(1, 1, true, false, false, true)).into_raw(), vec![
        0x6au8, 1, 1
    ]);
    assert_eq!(Var::new(Symbol::raw_fn(1, 0, false, false, true, false)).into_raw(), vec![
        0xa2u8, 1, 1
    ]);
    assert_eq!(
        Fun::new_into(Symbol::raw_fn(1, 0, false, true, false, false), Vec::new()).into_raw(),
        vec![0x83u8, 10, 0, 0, 0, 0x14, 1, 0, 0, 0, 1, 0, 0, 0, 0]
    );
}

#[test]
fn inline_nodes_hold_the_same_bytes() {
    let s = Symbol::raw_var(70000, 2);
    let v = InlineVar::new(s);
    assert_eq!(v.get_data(), &Var::new(s).into_raw()[..]);
    assert!(v.as_view() == Var::new(s).as_view());
    let converted: InlineVar = s.into();
    assert_eq!(converted.get_data(), v.get_data());
    assert_eq!(InlineVar::from(s).as_var_view().get_symbol(), s);
    let n = InlineNum::new(-7, u64::MAX);
    assert_eq!(n.get_data(), &num(-7, u64::MAX).into_raw()[..]);
    assert!(n.as_view() == num(-7, u64::MAX).as_view());
    assert!(n.as_num_view() == num(-7, u64::MAX).to_num_view());
    assert_eq!(InlineNum::new(i64::MIN, u64::MAX).get_data().len(), 18);
}

#[test]
fn flags_are_set_and_cleared_alone() {
    let mut m = Mul::new();
    m.extend(num(2, 1).as_view());
    assert!(!m.to_mul_view().is_normalized());
    assert!(!m.to_mul_view().has_coefficient());
    m.set_has_coefficient(true);
    m.set_normalized(true);
    assert!(m.to_mul_view().is_normalized());
    assert!(m.to_mul_view().has_coefficient());
    assert_eq!(m.clone().into_raw()[0], 0x44);
    m.set_has_coefficient(false);
    assert!(m.to_mul_view().is_normalized());
    assert_eq!(m.get_nargs(), 1);
    m.extend(num(3, 1).as_view());
    assert!(!m.to_mul_view().is_normalized());

    let mut a = Add::new();
    a.set_normalized(true);
    assert!(a.to_add_view().is_normalized());
    a.extend(num(3, 1).as_view());
    assert!(!a.to_add_view().is_normalized());

    let mut p = Pow::new_into(num(3, 1).as_view(), num(2, 1).as_view(), Vec::new());
    assert!(!p.to_pow_view().is_normalized());
    p.set_normalized(true);
    assert!(p.to_pow_view().is_normalized());
    assert!(p.to_pow_view().get_base() == num(3, 1).as_view());
    p.set_normalized(false);
    assert_eq!(p.into_raw()[0], 0x86);

    let mut f = Fun::new_into(Symbol::raw_fn(1, 2, true, false, false, true), Vec::new());
    f.set_normalized(true);
    assert!(f.to_fun_view().is_normalized());
    assert_eq!(f.get_symbol(), Symbol::raw_fn(1, 2, true, false, false, true));
    f.add_arg(num(3, 1).as_view());
    assert!(!f.to_fun_view().is_normalized());
    assert_eq!(f.get_symbol(), Symbol::raw_fn(1, 2, true, false, false, true));
}

#[test]
fn lists_give_ranges_and_single_nodes() {
    let mut m = Mul::new();
    for i in 0..6 {
        m.extend(Var::new(Symbol::raw_var(i, 0)).as_view());
    }
    let view = m.to_mul_view();
    let s = view.to_slice();
    let sub = s.get_subslice(2..5);
    assert_eq!(sub.len(), 3);
    assert_eq!(sub.get_type(), SliceType::Mul);
    for i in 0..3 {
        assert!(sub.get(i) == s.get(i + 2));
    }
    assert_eq!(s.get_subslice(6..6).len(), 0);
    assert_eq!(s.get_subslice(0..6).len(), 6);
    let mut it = sub.iter();
    assert!(it.next().unwrap() == s.get(2));
    assert!(it.next().unwrap() == s.get(3));
    assert!(it.next().unwrap() == s.get(4));
    assert!(it.next().is_none());
    assert!(it.next().is_none());

    let one = ListSlice::from_one(view.as_view());
    assert_eq!(one.len(), 1);
    assert_eq!(one.get_type(), SliceType::One);
    assert!(one.get(0) == m.as_view());
    let none = ListSlice::empty();
    assert_eq!(none.len(), 0);
    assert_eq!(none.get_type(), SliceType::Empty);
    assert!(none.iter().next().is_none());
}

#[test]
fn copies_are_byte_for_byte() {
    let mut f = Fun::new_into(Symbol::raw_var(1, 0), Vec::new());
    f.add_arg(num(3, 1).as_view());
    let view = f.to_fun_view();
    assert!(view.to_owned() == f);
    let mut target = Fun::new_into(Symbol::raw_var(2, 0), Vec::new());
    view.clone_into(&mut target);
    assert!(target == f);
    assert!(view.clone_into_raw(vec![1, 2, 3]) == f);
    assert_eq!(view.get_byte_size(), f.clone().into_raw().len());

    let n = num(5, 9);
    assert!(n.to_num_view().to_owned() == n);
    let mut other = Num::zero(Vec::new());
    other.set_from_view(&n.to_num_view());
    assert!(other == n);
    other.set_from_coeff(Coefficient::Rational(1, 1));
    assert!(other.to_num_view().is_one());
    assert!(Num::new_into(Coefficient::Rational(5, 9), vec![7; 40]) == n);

    let mut a = Atom::new();
    a.set_from_view(&f.as_view());
    assert!(matches!(a, Atom::Fun(_)));
    assert!(a.as_view() == f.as_view());
    a.to_num(Coefficient::Rational(5, 9));
    assert!(a.as_view() == n.as_view());
    a.to_var(Symbol::raw_var(3, 0));
    assert_eq!(a.clone().into_raw(), vec![2u8, 1, 3]);
    a.to_pow(n.as_view(), n.as_view());
    assert!(matches!(a, Atom::Pow(_)));
    a.to_mul();
    assert!(a.as_view() == Mul::new().as_view());
    a.to_add();
    assert!(a.as_view() == Add::default().as_view());
    a.to_fun(Symbol::raw_var(1, 0));
    assert!(a.as_view() == Fun::new_into(Symbol::raw_var(1, 0), Vec::new()).as_view());
    assert!(Atom::from_raw(f.clone().into_raw()).as_view() == f.as_view());
    assert_eq!(Atom::new().into_raw(), Vec::<u8>::new());
    assert_eq!(Atom::new().get_capacity(), 0);
    assert_eq!(Atom::new().get_data(), &[1u8, 1, 0][..]);
    assert!(Atom::new_num(Coefficient::Rational(5, 9)).as_view() == n.as_view());
    assert!(Atom::new_var(Symbol::raw_var(3, 0)).get_capacity() >= 3);
    let mut grown = Add::new();
    grown.grow_capacity(100);
    assert!(grown == Add::new());
    assert!(Atom::Add(grown).get_capacity() >= 4);
    assert!(Atom::new() == Atom::Num(Num::zero(Vec::new())));
}

#[test]
fn views_compare_by_their_bytes() {
    let f = |id: u32| Fun::new_into(Symbol::raw_var(id, 0), Vec::new());
    let a = f(1);
    let b = f(2);
    assert_eq!(a.to_fun_view().fast_cmp(b.to_fun_view()), Ordering::Less);
    assert_eq!(b.to_fun_view().fast_cmp(a.to_fun_view()), Ordering::Greater);
    assert_eq!(a.to_fun_view().fast_cmp(f(1).to_fun_view()), Ordering::Equal);
    let mut longer = f(1);
    longer.add_arg(num(1, 1).as_view());
    // the size field is compared before the name
    assert_eq!(a.to_fun_view().fast_cmp(longer.to_fun_view()), Ordering::Less);
    assert!(a.as_view() != b.as_view());
    assert!(a.as_view() == f(1).as_view());
    assert!(AtomView::zero() == Num::zero(Vec::new()).as_view());
}

fn lookup<K: KeyLookup>(map: &HashMap<K, u32>, key: &[u8]) -> Option<u32> {
    map.get(key).copied()
}

#[test]
fn nodes_are_borrowed_as_their_bytes() {
    let v = Atom::new_var(Symbol::raw_var(3, 0));
    let bytes: &[u8] = v.borrow();
    assert_eq!(bytes, &[2u8, 1, 3][..]);
    let view = v.as_view();
    let bytes: &[u8] = view.borrow();
    assert_eq!(bytes, &[2u8, 1, 3][..]);
    let zero = Atom::new();
    let bytes: &[u8] = zero.borrow();
    assert_eq!(bytes, &[1u8, 1, 0][..]);
}

#[test]
fn a_buffer_holds_at_least_its_node() {
    let mut f = Fun::new_into(Symbol::raw_var(1, 0), Vec::new());
    for i in 0..20 {
        f.add_arg(num(i, 1).as_view());
    }
    for a in [
        Atom::Fun(f),
        Atom::new_num(Coefficient::Rational(5, 9)),
        Atom::new_var(Symbol::raw_var(70000, 0)),
        Atom::Mul(Mul::new()),
        Atom::Add(Add::new()),
        Atom::Pow(Pow::new_into(num(3, 1).as_view(), num(2, 1).as_view(), Vec::new())),
    ] {
        assert!(a.get_capacity() >= a.get_data().len());
    }
    assert_eq!(Atom::new().get_capacity(), 0);
}

#[test]
fn nodes_are_keys_by_their_bytes() {
    let mut map: HashMap<Atom, u32> = HashMap::new();
    map.insert(Atom::new_var(Symbol::raw_var(3, 0)), 7);
    map.insert(Atom::new_num(Coefficient::Rational(5, 9)), 8);
    assert_eq!(lookup(&map, &[2, 1, 3]), Some(7));
    assert_eq!(lookup(&map, &[1, 0x11, 5, 9]), Some(8));
    assert_eq!(lookup(&map, &[2, 1, 4]), None);
}

#[test]
fn inline_nodes_are_written_in_place() {
    let v = InlineVar::new(Symbol::raw_var(70000, 2));
    assert_eq!(v.get_data(), &[0x12u8, 0x03, 0x70, 0x11, 0x01, 0x00][..]);
    assert_eq!(InlineVar::new(Symbol::raw_var(5, 0)).get_data(), &[2u8, 1, 5][..]);
    assert_eq!(InlineNum::new(-7, 3).get_data(), &[1u8, 0x91, 7, 3][..]);
    assert_eq!(InlineNum::new(0, 1).get_data(), &[1u8, 1, 0][..]);
    assert_eq!(InlineNum::new(256, 1).get_data(), &[1u8, 2, 0, 1][..]);
    let least = InlineNum::new(i64::MIN, 2);
    assert_eq!(least.get_data(), &[1u8, 0x94, 0, 0, 0, 0, 0, 0, 0, 0x80, 2][..]);
}
