use symbolica_atom::atom::Atom;
use symbolica_atom::builder::{Add, Fun, Mul, Num, Pow, Var};
use symbolica_atom::coefficient::Coefficient;
use symbolica_atom::rename::StateMap;
use symbolica_atom::state::State;
use symbolica_atom::stream::{is_atom, node_size, run_size, ReadError};
use symbolica_atom::symbol::Symbol;
use symbolica_atom::view::AtomView;

fn var(id: u32) -> Var {
    Var::new(Symbol::raw_var(id, 0))
}

fn num(n: i64) -> Num {
    Num::new(Coefficient::Rational(n, 1))
}

// x*y^2*5 + 5
fn sample() -> Add {
    let x = var(10);
    let y = var(11);
    let y2 = Pow::new_into(y.as_view(), num(2).as_view(), Vec::new());
    let mut m = Mul::new();
    m.extend(x.as_view());
    m.extend(y2.as_view());
    m.extend(num(5).as_view());
    let mut a = Add::new();
    a.extend(m.as_view());
    a.extend(num(5).as_view());
    a
}

#[test]
fn write_then_read_gives_the_expression() {
    let a = sample();
    assert_eq!(a.get_nargs(), 2);
    let mut stream = Vec::new();
    a.as_view().write(&mut stream);
    assert_eq!(stream[0], 0);
    let n = a.as_view().get_byte_size();
    assert_eq!(&stream[1..9], &(n as u64).to_le_bytes()[..]);
    assert_eq!(stream.len(), 9 + n);

    let mut back = Atom::new();
    let rest = back.read(&stream).unwrap();
    assert!(rest.is_empty());
    assert!(back.as_view() == a.as_view());
    match back {
        Atom::Add(sum) => {
            assert_eq!(sum.get_nargs(), 2);
            let s = sum.to_add_view().to_slice();
            match s.get(0) {
                AtomView::Mul(m) => assert_eq!(m.get_nargs(), 3),
                _ => panic!("the first term is a product"),
            }
            assert!(s.get(1) == num(5).as_view());
        }
        _ => panic!("a sum was written"),
    }
}

#[test]
fn read_leaves_what_follows_the_frame() {
    let mut stream = Vec::new();
    var(1).as_view().write(&mut stream);
    num(7).as_view().write(&mut stream);
    stream.push(0xee);
    let mut a = Atom::new();
    let rest = a.read(&stream).unwrap();
    assert!(a.as_view() == var(1).as_view());
    let mut b = Atom::new();
    let rest = b.read(rest).unwrap();
    assert!(b.as_view() == num(7).as_view());
    assert_eq!(rest, &[0xeeu8][..]);
}

#[test]
fn read_of_a_short_stream_is_truncated() {
    let mut stream = Vec::new();
    sample().as_view().write(&mut stream);
    for cut in [0usize, 1, 8, 9, stream.len() - 1] {
        let mut a = Atom::new();
        assert_eq!(a.read(&stream[..cut]), Err(ReadError::Truncated));
        assert!(matches!(a, Atom::Zero));
    }
}

#[test]
fn read_of_a_bad_node_is_malformed() {
    // a header byte of an unknown kind
    let mut a = Atom::new();
    let stream = [0u8, 3, 0, 0, 0, 0, 0, 0, 0, 7, 1, 5];
    assert_eq!(a.read(&stream), Err(ReadError::Malformed));
    // an empty frame
    let stream = [0u8, 0, 0, 0, 0, 0, 0, 0, 0];
    assert_eq!(a.read(&stream), Err(ReadError::Malformed));
    // a variable followed by a stray byte inside the frame
    let stream = [0u8, 4, 0, 0, 0, 0, 0, 0, 0, 2, 1, 5, 9];
    assert_eq!(a.read(&stream), Err(ReadError::Malformed));
    // a sum that announces two terms and holds one
    let stream = [0u8, 6, 0, 0, 0, 0, 0, 0, 0, 0x85, 0x11, 2, 3, 2, 1, 5];
    assert_eq!(a.read(&stream), Err(ReadError::Malformed));
    assert!(matches!(a, Atom::Zero));
}

#[test]
fn sizes_of_nodes_and_runs() {
    let a = sample().into_raw();
    assert!(is_atom(&a));
    assert_eq!(node_size(&a), Some(a.len()));
    assert!(!is_atom(&a[..a.len() - 1]));
    assert!(!is_atom(&[]));
    let mut two = var(1).into_raw();
    two.extend(num(3).into_raw());
    assert_eq!(node_size(&two), Some(3));
    assert_eq!(run_size(&two, 2), Some(6));
    assert_eq!(run_size(&two, 3), None);
    assert_eq!(run_size(&two, 0), Some(0));
    assert!(AtomView::from_checked(&two).is_none());
    assert!(AtomView::from_checked(&two[..3]).unwrap() == var(1).as_view());
}

#[test]
fn export_is_state_count_and_frame() {
    let v = var(0);
    let mut state = State::new();
    let x = state.get_symbol_with_attributes(b"x", Symbol::raw_var(0, 0)).unwrap();
    assert_eq!(x, Symbol::raw_var(0, 0));
    let mut out = vec![0xaau8];
    v.as_view().export(&state, &mut out);
    assert_eq!(
        out,
        vec![
            0xaau8, // what was there
            1, 0, 0, 0, 0, 0, 0, 0, // one symbol
            1, 0, 0, 0, 0, 0, 0, 0, b'x', 2, 1, 0, // its name and its variable
            0, 0, 0, 0, 0, 0, 0, 0, // no variable lists
            1, 0, 0, 0, 0, 0, 0, 0, // one expression
            0, 3, 0, 0, 0, 0, 0, 0, 0, 2, 1, 0, // its frame
        ]
    );
    let atom = Atom::import_expressions(&out[29..], &StateMap::new()).unwrap();
    assert!(atom.as_view() == v.as_view());
}

#[test]
fn import_sums_several_expressions() {
    let mut stream = Vec::new();
    stream.extend_from_slice(&3u64.to_le_bytes());
    var(1).as_view().write(&mut stream);
    sample().as_view().write(&mut stream);
    var(2).as_view().write(&mut stream);
    let atom = Atom::import_expressions(&stream, &StateMap::new()).unwrap();
    match atom {
        Atom::Add(sum) => {
            // the terms of the sum that was read take its place
            assert_eq!(sum.get_nargs(), 4);
            let s = sum.to_add_view().to_slice();
            assert!(s.get(0) == var(1).as_view());
            assert!(s.get(2) == num(5).as_view());
            assert!(s.get(3) == var(2).as_view());
        }
        _ => panic!("several expressions are summed"),
    }
    let none = Atom::import_expressions(&0u64.to_le_bytes(), &StateMap::new()).unwrap();
    assert!(none.as_view() == Add::new().as_view());
    assert_eq!(Atom::import_expressions(&[1, 0, 0], &StateMap::new()), Err(ReadError::Truncated));
    assert_eq!(
        Atom::import_expressions(&2u64.to_le_bytes(), &StateMap::new()),
        Err(ReadError::Truncated)
    );
}

#[test]
fn rename_maps_symbols_everywhere() {
    let f_old = Symbol::raw_fn(20, 0, true, false, false, false);
    let f_new = Symbol::raw_fn(70000, 0, true, false, false, false);
    let mut map = StateMap::new();
    map.insert_symbol(20, f_new);
    map.insert_symbol(10, Symbol::raw_var(300, 1));
    assert_eq!(map.get_symbol(20), Some(f_new));
    assert_eq!(map.get_symbol(21), None);

    let mut f = Fun::new_into(f_old, Vec::new());
    f.add_arg(var(10).as_view());
    f.add_arg(sample().as_view());
    let renamed = f.as_view().rename(&map).unwrap();

    let mut inner = Mul::new();
    inner.extend(Var::new(Symbol::raw_var(300, 1)).as_view());
    inner.extend(Pow::new_into(var(11).as_view(), num(2).as_view(), Vec::new()).as_view());
    inner.extend(num(5).as_view());
    let mut sum = Add::new();
    sum.extend(inner.as_view());
    sum.extend(num(5).as_view());
    let mut expected = Fun::new_into(f_new, Vec::new());
    expected.add_arg(Var::new(Symbol::raw_var(300, 1)).as_view());
    expected.add_arg(sum.as_view());
    assert!(renamed.as_view() == expected.as_view());
    match renamed {
        Atom::Fun(g) => {
            assert_eq!(g.get_symbol(), f_new);
            assert_eq!(g.get_nargs(), 2);
        }
        _ => panic!("a function stays a function"),
    }
}

#[test]
fn rename_leaves_what_the_table_does_not_name() {
    let map = StateMap::new();
    let f_sym = Symbol::raw_fn(20, 2, false, true, false, true);
    let mut f = Fun::new_into(f_sym, Vec::new());
    f.add_arg(var(10).as_view());
    f.set_normalized(true);
    for a in [f.as_view(), var(3).as_view(), num(-4).as_view()] {
        assert!(a.rename(&map).unwrap().as_view() == a);
    }
    // a table that names nothing in the function leaves it, flags and all
    let mut unrelated = StateMap::new();
    unrelated.insert_symbol(99, Symbol::raw_var(11, 0));
    unrelated.insert_finite_field(0, 1);
    assert!(f.as_view().rename(&unrelated).unwrap().as_view() == f.as_view());
    assert!(!f.as_view().touches(&unrelated));
}

#[test]
fn rename_reaches_the_arguments_of_a_function_it_does_not_name() {
    // f(x) with x renamed to y and f not: f(y)
    let f_sym = Symbol::raw_fn(20, 2, false, true, false, true);
    let mut f = Fun::new_into(f_sym, Vec::new());
    f.add_arg(var(10).as_view());
    f.set_normalized(true);
    let mut map = StateMap::new();
    map.insert_symbol(10, Symbol::raw_var(11, 0));
    assert!(f.as_view().touches(&map));
    let mut expected = Fun::new_into(f_sym, Vec::new());
    expected.add_arg(var(11).as_view());
    let got = f.as_view().rename(&map).unwrap();
    assert!(got.as_view() == expected.as_view());
    // at any depth: g(f(x), 2^x, x*z + 1)
    let mut product = Mul::new();
    product.extend(var(10).as_view());
    product.extend(var(12).as_view());
    let mut sum = Add::new();
    sum.extend(product.as_view());
    sum.extend(num(1).as_view());
    let power = Pow::new_into(num(2).as_view(), var(10).as_view(), Vec::new());
    let mut g = Fun::new_into(Symbol::raw_var(21, 0), Vec::new());
    g.add_arg(f.as_view());
    g.add_arg(power.as_view());
    g.add_arg(sum.as_view());
    let mut product = Mul::new();
    product.extend(var(11).as_view());
    product.extend(var(12).as_view());
    let mut sum = Add::new();
    sum.extend(product.as_view());
    sum.extend(num(1).as_view());
    let power = Pow::new_into(num(2).as_view(), var(11).as_view(), Vec::new());
    let mut wanted = Fun::new_into(Symbol::raw_var(21, 0), Vec::new());
    wanted.add_arg(expected.as_view());
    wanted.add_arg(power.as_view());
    wanted.add_arg(sum.as_view());
    assert!(g.as_view().rename(&map).unwrap().as_view() == wanted.as_view());
    // what the table names nothing in stays as it is inside what is built
    let mut kept = Mul::new();
    kept.extend(var(12).as_view());
    kept.set_normalized(true);
    kept.set_has_coefficient(true);
    let mut h = Fun::new_into(Symbol::raw_var(21, 0), Vec::new());
    h.add_arg(kept.as_view());
    h.add_arg(var(10).as_view());
    let out = h.as_view().rename(&map).unwrap();
    match out {
        Atom::Fun(built) => {
            let args = built.to_fun_view().to_slice();
            assert!(args.get(0) == kept.as_view());
            assert!(args.get(1) == var(11).as_view());
        }
        _ => panic!("a function"),
    }
}

#[test]
fn rename_by_an_empty_table_gives_the_expression_back() {
    let map = StateMap::new();
    let a = sample();
    assert!(a.as_view().rename(&map).unwrap().as_view() == a.as_view());
    let tower = Pow::new_into(a.as_view(), a.as_view(), Vec::new());
    assert!(tower.as_view().rename(&map).unwrap().as_view() == tower.as_view());
    // a product that is marked as normalized comes back marked so
    let mut m = Mul::new();
    m.extend(var(1).as_view());
    m.set_normalized(true);
    m.set_has_coefficient(true);
    assert!(m.as_view().rename(&map).unwrap().as_view() == m.as_view());
    // importing what was exported
    let mut state = State::new();
    for (i, name) in ["a", "b", "c"].iter().enumerate() {
        let s = state
            .get_symbol_with_attributes(name.as_bytes(), Symbol::raw_var(0, 0))
            .unwrap();
        assert_eq!(s.get_id() as usize, i);
    }
    let mut out = Vec::new();
    a.as_view().export(&state, &mut out);
    let before = state.clone();
    let back = Atom::import(&out, &mut state, None::<fn(Vec<u8>) -> Vec<u8>>).unwrap();
    assert!(back.as_view() == a.as_view());
    assert_eq!(state, before);
    // a normalized expression comes back byte for byte, and same in kind,
    // with or without a function for conflicts, which is not called
    let mut normal = sample();
    normal.set_normalized(true);
    let mut out = Vec::new();
    normal.as_view().export(&state, &mut out);
    let back = Atom::import(&out, &mut state, None::<fn(Vec<u8>) -> Vec<u8>>).unwrap();
    assert_eq!(back.get_data(), normal.get_data());
    assert!(matches!(back, Atom::Add(_)));
    let back = Atom::import(
        &out,
        &mut state,
        Some(|_name: Vec<u8>| -> Vec<u8> { panic!("no conflict") }),
    )
    .unwrap();
    assert_eq!(back.get_data(), normal.get_data());
    assert_eq!(state, before);
}

#[test]
fn rename_maps_fields_and_variable_lists() {
    let mut map = StateMap::new();
    map.insert_finite_field(3, 8);
    map.insert_variables_list(4, 1000);
    assert_eq!(map.get_finite_field(3), Some(8));
    assert_eq!(map.get_variables_list(5), None);
    let ff = Num::new(Coefficient::FiniteField(12, 3));
    let rp = Num::new(Coefficient::RationalPolynomial(4, vec![9, 8, 7]));
    let other = Num::new(Coefficient::FiniteField(12, 4));
    let r = ff.as_view().rename(&map).unwrap();
    assert!(r.as_view() == Num::new(Coefficient::FiniteField(12, 8)).as_view());
    let r = rp.as_view().rename(&map).unwrap();
    assert!(
        r.as_view() == Num::new(Coefficient::RationalPolynomial(1000, vec![9, 8, 7])).as_view()
    );
    let r = other.as_view().rename(&map).unwrap();
    assert!(r.as_view() == other.as_view());
    let r = Atom::import_with_map(
        &{
            let mut s = Vec::new();
            ff.as_view().write(&mut s);
            s
        },
        &map,
    )
    .unwrap();
    assert!(r.as_view() == Num::new(Coefficient::FiniteField(12, 8)).as_view());
}

#[test]
fn rename_flattens_what_it_builds() {
    // a product in a product: renaming builds the outer product anew, and
    // the factors of the inner one take its place
    let mut inner = Mul::new();
    inner.extend(var(1).as_view());
    inner.extend(var(2).as_view());
    let mut raw = Mul::new();
    raw.extend(var(3).as_view());
    let mut bytes = raw.into_raw();
    // splice the inner product in by hand: count 2, size grows
    let inner_raw = inner.clone().into_raw();
    bytes.extend_from_slice(&inner_raw);
    let size = (bytes.len() - 5) as u32;
    bytes[1..5].copy_from_slice(&size.to_le_bytes());
    bytes[6] = 2;
    let nested = AtomView::from_checked(&bytes).unwrap();
    match nested {
        AtomView::Mul(m) => assert_eq!(m.get_nargs(), 2),
        _ => panic!("a product"),
    }
    // a table that names nothing in it leaves it nested
    assert!(nested.rename(&StateMap::new()).unwrap().as_view() == nested);
    let mut map = StateMap::new();
    map.insert_symbol(2, Symbol::raw_var(9, 0));
    let flat = nested.rename(&map).unwrap();
    match flat {
        Atom::Mul(m) => {
            assert_eq!(m.get_nargs(), 3);
            let s = m.to_mul_view().to_slice();
            assert!(s.get(0) == var(3).as_view());
            assert!(s.get(1) == var(1).as_view());
            assert!(s.get(2) == var(9).as_view());
        }
        _ => panic!("a product"),
    }
}
