use symbolica_atom::atom::Atom;
use symbolica_atom::builder::{Add, Fun, Mul, Num, Pow, Var};
use symbolica_atom::coefficient::{Coefficient, CoefficientView};
use symbolica_atom::symbol::Symbol;
use symbolica_atom::view::{AtomView, SliceType};

fn var(id: u32) -> Var {
    Var::new(Symbol::raw_var(id, 0))
}

fn num(n: i64) -> Num {
    Num::new(Coefficient::Rational(n, 1))
}

#[test]
fn zero_is_three_bytes() {
    let z = Num::zero(Vec::new());
    assert_eq!(z.clone().into_raw(), vec![1u8, 1, 0]);
    assert!(z.to_num_view().is_zero());
    assert!(!z.to_num_view().is_one());
    assert_eq!(Atom::new().as_view().get_data(), &[1u8, 1, 0][..]);
}

#[test]
fn var_bytes_are_flags_and_packed_id() {
    assert_eq!(var(5).into_raw(), vec![2u8, 1, 5]);
    assert_eq!(var(300).into_raw(), vec![2u8, 2, 0x2c, 0x01]);
    assert_eq!(var(70000).into_raw(), vec![2u8, 3, 0x70, 0x11, 0x01, 0x00]);
}

#[test]
fn fun_add_arg_nine_times() {
    let f_sym = Symbol::raw_fn(7, 0, false, false, false, false);
    let mut f = Fun::new_into(f_sym, Vec::new());
    assert_eq!(f.get_nargs(), 0);
    let args: Vec<Var> = (0..9).map(|i| var(100 + i)).collect();
    for a in &args {
        f.add_arg(a.as_view());
    }
    assert_eq!(f.get_nargs(), 9);
    assert_eq!(f.get_symbol(), f_sym);
    let view = f.to_fun_view();
    let mut it = view.iter();
    let slice = view.to_slice();
    assert_eq!(slice.len(), 9);
    assert_eq!(slice.get_type(), SliceType::Arg);
    for (i, a) in args.iter().enumerate() {
        let by_iter = it.next().unwrap();
        assert!(by_iter == a.as_view());
        assert!(slice.get(i) == a.as_view());
    }
    assert!(it.next().is_none());
    assert!(!view.is_normalized());
}

#[test]
fn fun_header_grows_with_the_count() {
    // the pair (name, count) takes one byte more once the count is not 1
    let mut f = Fun::new_into(Symbol::raw_var(1, 0), Vec::new());
    assert_eq!(f.clone().into_raw(), vec![0x83u8, 3, 0, 0, 0, 0x11, 1, 0]);
    f.add_arg(var(2).as_view());
    assert_eq!(f.clone().into_raw(), vec![0x83u8, 5, 0, 0, 0, 0x01, 1, 2, 1, 2]);
    f.add_arg(var(3).as_view());
    assert_eq!(
        f.clone().into_raw(),
        vec![0x83u8, 9, 0, 0, 0, 0x11, 1, 2, 2, 1, 2, 2, 1, 3]
    );
}

#[test]
fn fresh_containers_byte_for_byte() {
    assert_eq!(Mul::new().into_raw(), vec![0x84u8, 2, 0, 0, 0, 0x01, 0]);
    assert_eq!(Mul::new_into(vec![9; 30]).into_raw(), vec![0x84u8, 2, 0, 0, 0, 0x01, 0]);
    assert_eq!(Add::new().into_raw(), vec![0x85u8, 0x11, 0, 0]);
    let mut m = Mul::new();
    m.extend(var(5).as_view());
    assert_eq!(m.into_raw(), vec![0x84u8, 5, 0, 0, 0, 0x01, 1, 2, 1, 5]);
    let two = Pow::new_into(var(5).as_view(), num(2).as_view(), Vec::new());
    assert_eq!(two.into_raw(), vec![0x86u8, 2, 1, 5, 1, 1, 2]);
}

#[test]
fn mul_extend_flattens_a_product() {
    let mut inner = Mul::new();
    inner.extend(var(1).as_view());
    inner.extend(var(2).as_view());
    let mut m = Mul::new();
    m.extend(var(3).as_view());
    m.extend(inner.as_view());
    m.extend(num(5).as_view());
    assert_eq!(m.get_nargs(), 4);
    let s = m.to_mul_view().to_slice();
    assert!(s.get(0) == var(3).as_view());
    assert!(s.get(1) == var(1).as_view());
    assert!(s.get(2) == var(2).as_view());
    assert!(s.get(3) == num(5).as_view());
    assert_eq!(s.get_type(), SliceType::Mul);
}

#[test]
fn mul_replace_last() {
    let mut m = Mul::new();
    m.extend(var(1).as_view());
    m.extend(var(2).as_view());
    m.replace_last(var(70000).as_view());
    assert_eq!(m.get_nargs(), 2);
    let s = m.to_mul_view().to_slice();
    assert!(s.get(0) == var(1).as_view());
    assert!(s.get(1) == var(70000).as_view());
    let mut other = Mul::new();
    other.extend(var(1).as_view());
    other.extend(var(70000).as_view());
    assert!(m == other);
}

#[test]
fn add_extend_flattens_a_sum() {
    let mut inner = Add::new();
    inner.extend(var(1).as_view());
    inner.extend(var(2).as_view());
    let mut a = Add::new();
    a.extend(inner.as_view());
    a.extend(var(3).as_view());
    assert_eq!(a.get_nargs(), 3);
    let view = a.to_add_view();
    let mut it = view.iter();
    assert!(it.next().unwrap() == var(1).as_view());
    assert!(it.next().unwrap() == var(2).as_view());
    assert!(it.next().unwrap() == var(3).as_view());
    assert!(it.next().is_none());
    assert_eq!(
        a.into_raw(),
        vec![0x85u8, 0x11, 3, 9, 2, 1, 1, 2, 1, 2, 2, 1, 3]
    );
}

#[test]
fn pow_has_two_children_at_any_depth() {
    let x = var(1);
    let two = num(2);
    let square = Pow::new_into(x.as_view(), two.as_view(), Vec::new());
    let tower = Pow::new_into(square.as_view(), square.as_view(), Vec::new());
    let top = Pow::new_into(tower.as_view(), x.as_view(), Vec::new());
    let v = top.to_pow_view();
    let s = v.to_slice();
    assert_eq!(s.len(), 2);
    assert_eq!(s.get_type(), SliceType::Pow);
    assert!(s.get(0) == tower.as_view());
    assert!(s.get(1) == x.as_view());
    let (b, e) = v.get_base_exp();
    assert!(b == tower.as_view());
    assert!(e == x.as_view());
    match b {
        AtomView::Pow(inner) => {
            assert!(inner.get_base() == square.as_view());
            assert!(inner.get_exp() == square.as_view());
        }
        _ => panic!("the base is a power"),
    }
}

#[test]
fn coefficients_round_trip() {
    for c in [
        Coefficient::Rational(0, 1),
        Coefficient::Rational(-1, 1),
        Coefficient::Rational(5, 7),
        Coefficient::Rational(i64::MIN, u64::MAX),
        Coefficient::Rational(i64::MAX, 2),
        Coefficient::Rational(-300, 70000),
        Coefficient::FiniteField(12, 3),
        Coefficient::FiniteField(u64::MAX, 0),
        Coefficient::RationalPolynomial(4, vec![9, 8, 7]),
        Coefficient::RationalPolynomial(0, vec![]),
    ] {
        let n = Num::new(c.clone());
        let back = n.to_num_view().get_coeff_view().to_owned();
        assert_eq!(back, c);
        assert_eq!(c.get_packed_size() as usize + 1, n.to_num_view().get_byte_size());
    }
    match num(-3).to_num_view().get_coeff_view() {
        CoefficientView::Rational(n, d) => {
            assert_eq!(n, -3);
            assert_eq!(d, 1);
        }
        _ => panic!("a rational"),
    }
    assert_eq!(num(-3).into_raw(), vec![1u8, 0x81, 3]);
}

#[test]
fn extend_adds_to_the_count_and_keeps_the_coefficient_flag() {
    let mut inner = Mul::new();
    inner.extend(var(1).as_view());
    inner.extend(var(2).as_view());
    let mut m = Mul::new();
    m.extend(num(3).as_view());
    m.set_has_coefficient(true);
    m.set_normalized(true);
    m.extend(var(4).as_view());
    assert_eq!(m.get_nargs(), 2);
    assert!(m.to_mul_view().has_coefficient());
    assert!(!m.to_mul_view().is_normalized());
    m.extend(inner.as_view());
    assert_eq!(m.get_nargs(), 4);
    assert!(m.to_mul_view().has_coefficient());
    let mut plainer = Mul::new();
    plainer.extend(var(4).as_view());
    assert!(!plainer.to_mul_view().has_coefficient());
    let mut a = Add::new();
    a.extend(var(1).as_view());
    a.extend(m.as_view());
    assert_eq!(a.get_nargs(), 2);
    let mut b = Add::new();
    b.extend(a.as_view());
    b.extend(a.as_view());
    assert_eq!(b.get_nargs(), 4);
}
