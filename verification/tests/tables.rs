use symbolica_atom::atom::Atom;
use symbolica_atom::builder::{Fun, Mul, Var};
use symbolica_atom::state::{State, StateError};
use symbolica_atom::stream::{ImportError, ReadError};
use symbolica_atom::symbol::Symbol;

type Resolver = fn(Vec<u8>) -> Vec<u8>;

fn plain() -> Symbol {
    Symbol::raw_var(0, 0)
}

fn symmetric() -> Symbol {
    Symbol::raw_fn(0, 0, true, false, false, false)
}

#[test]
fn a_table_hands_out_ids_in_order() {
    let mut state = State::new();
    assert_eq!(state.len(), 0);
    let x = state.get_symbol_with_attributes(b"x", plain()).unwrap();
    let f = state.get_symbol_with_attributes(b"f", symmetric()).unwrap();
    assert_eq!(x.get_id(), 0);
    assert_eq!(f.get_id(), 1);
    assert!(f.is_symmetric());
    assert_eq!(state.get_symbol_with_attributes(b"x", plain()), Ok(x));
    assert_eq!(
        state.get_symbol_with_attributes(b"x", symmetric()),
        Err(StateError::Conflict)
    );
    assert_eq!(state.len(), 2);
    assert_eq!(state.get_name(1), Some(&b"f"[..]));
    assert_eq!(state.get_name(2), None);
    assert_eq!(state.get_symbol(1), Some(f));
    assert_eq!(state.get_symbol(2), None);
    assert_eq!(state.find(b"f"), Some(1));
    assert_eq!(state.find(b"g"), None);
    assert!(state.conflicts(b"f", plain()));
    assert!(!state.conflicts(b"f", symmetric()));
    assert!(!state.conflicts(b"g", plain()));
    // attributes are kept in canonical form
    let odd = state
        .get_symbol_with_attributes(b"odd", Symbol::raw_fn(9, 7, true, true, false, false))
        .unwrap();
    assert_eq!(odd, Symbol::raw_fn(2, 3, false, false, true, false));

    assert_eq!(state.add_variables_list(vec![1, 0]), 0);
    assert_eq!(state.add_variables_list(vec![0]), 1);
    assert_eq!(state.add_variables_list(vec![1, 0]), 0);
    assert_eq!(state.lists_len(), 2);
    assert_eq!(state.get_variables_list(1), Some(&[0u32][..]));
    assert_eq!(state.get_variables_list(2), None);
    assert_eq!(state.find_list(&[0]), Some(1));
    assert_eq!(state.find_list(&[]), None);
}

#[test]
fn a_section_is_read_back_as_the_table() {
    let mut state = State::new();
    state.get_symbol_with_attributes(b"x", plain()).unwrap();
    state.get_symbol_with_attributes(b"long name", symmetric()).unwrap();
    state
        .get_symbol_with_attributes(b"", Symbol::raw_fn(0, 2, false, false, true, true))
        .unwrap();
    state.add_variables_list(vec![2, 0, 70000]);
    state.add_variables_list(vec![]);
    let mut out = Vec::new();
    state.export(&mut out);
    out.extend_from_slice(&[7, 7]);
    let (back, rest) = State::parse(&out).unwrap();
    assert_eq!(back, state);
    assert_eq!(rest, &[7u8, 7][..]);
    for cut in 0..out.len() - 2 {
        assert!(State::parse(&out[..cut]).is_err());
    }
    assert_eq!(State::parse(&out[..3]).err(), Some(ReadError::Truncated));
}

#[test]
fn a_bad_section_is_refused() {
    // a symbol whose variable has another id than its place
    let bad = [
        1u8, 0, 0, 0, 0, 0, 0, 0, 1, 0, 0, 0, 0, 0, 0, 0, b'x', 2, 1, 5, 0, 0, 0, 0, 0, 0, 0, 0,
    ];
    assert_eq!(State::parse(&bad).err(), Some(ReadError::Malformed));
    // the same name twice
    let twice = [
        2u8, 0, 0, 0, 0, 0, 0, 0, 1, 0, 0, 0, 0, 0, 0, 0, b'x', 2, 1, 0, 1, 0, 0, 0, 0, 0, 0, 0,
        b'x', 2, 1, 1, 0, 0, 0, 0, 0, 0, 0, 0,
    ];
    assert_eq!(State::parse(&twice).err(), Some(ReadError::Malformed));
    // a number where a variable is to stand
    let number = [
        1u8, 0, 0, 0, 0, 0, 0, 0, 1, 0, 0, 0, 0, 0, 0, 0, b'x', 1, 1, 0, 0, 0, 0, 0, 0, 0, 0, 0,
    ];
    assert_eq!(State::parse(&number).err(), Some(ReadError::Malformed));
    // a variable list that is there twice
    let lists = [
        0u8, 0, 0, 0, 0, 0, 0, 0, 2, 0, 0, 0, 0, 0, 0, 0, 1, 0, 0, 0, 0, 0, 0, 0, 9, 0, 0, 0, 1,
        0, 0, 0, 0, 0, 0, 0, 9, 0, 0, 0,
    ];
    assert_eq!(State::parse(&lists).err(), Some(ReadError::Malformed));
    assert!(State::parse(&lists[..28]).is_err());
}

fn exported_under(names: &[(&str, Symbol)], lists: &[Vec<u32>], build: fn() -> Atom) -> Vec<u8> {
    let mut there = State::new();
    for (name, attributes) in names {
        there.get_symbol_with_attributes(name.as_bytes(), *attributes).unwrap();
    }
    for l in lists {
        there.add_variables_list(l.clone());
    }
    let mut out = Vec::new();
    build().as_view().export(&there, &mut out);
    out
}

// f(x, y) with the ids 0, 1, 2 for f, x, y
fn f_of_x_y() -> Atom {
    let mut f = Fun::new_into(symmetric(), Vec::new());
    f.add_arg(Var::new(Symbol::raw_var(1, 0)).as_view());
    f.add_arg(Var::new(Symbol::raw_var(2, 0)).as_view());
    Atom::Fun(f)
}

#[test]
fn import_renames_to_the_ids_of_this_table() {
    let stream = exported_under(
        &[("f", symmetric()), ("x", plain()), ("y", plain())],
        &[],
        f_of_x_y,
    );
    let mut here = State::new();
    here.get_symbol_with_attributes(b"y", plain()).unwrap();
    here.get_symbol_with_attributes(b"z", plain()).unwrap();
    let got = Atom::import(&stream, &mut here, None::<Resolver>).unwrap();
    // y is known as 0; f and x are appended as 2 and 3
    assert_eq!(here.len(), 4);
    assert_eq!(here.find(b"f"), Some(2));
    assert_eq!(here.find(b"x"), Some(3));
    let mut expected = Fun::new_into(Symbol::raw_fn(2, 0, true, false, false, false), Vec::new());
    expected.add_arg(Var::new(Symbol::raw_var(3, 0)).as_view());
    expected.add_arg(Var::new(Symbol::raw_var(0, 0)).as_view());
    assert!(got.as_view() == expected.as_view());
}

#[test]
fn import_asks_for_a_name_in_a_conflict() {
    let stream = exported_under(
        &[("f", symmetric()), ("x", plain()), ("y", plain())],
        &[],
        f_of_x_y,
    );
    // here f is a plain symbol
    let table = || {
        let mut here = State::new();
        here.get_symbol_with_attributes(b"f", plain()).unwrap();
        here
    };
    // without a function the symbol of this table is taken
    let mut here = table();
    let got = Atom::import(&stream, &mut here, None::<Resolver>).unwrap();
    match got {
        Atom::Fun(f) => assert_eq!(f.get_symbol(), Symbol::raw_var(0, 0)),
        _ => panic!("a function"),
    }
    assert_eq!(here.len(), 3);
    // with a function the symbol goes under the name that it picks
    let mut here = table();
    let got = Atom::import(
        &stream,
        &mut here,
        Some(|mut name: Vec<u8>| {
            name.push(b'1');
            name
        }),
    )
    .unwrap();
    assert_eq!(here.find(b"f1"), Some(1));
    assert_eq!(here.get_symbol(1), Some(Symbol::raw_fn(1, 0, true, false, false, false)));
    match got {
        Atom::Fun(f) => {
            assert_eq!(f.get_symbol(), Symbol::raw_fn(1, 0, true, false, false, false));
            assert_eq!(f.get_nargs(), 2);
        }
        _ => panic!("a function"),
    }
    // a picked name that is taken as well, with other attributes, is an error
    let mut here = table();
    let r = Atom::import(&stream, &mut here, Some(|_name: Vec<u8>| b"f".to_vec()));
    assert_eq!(r.err(), Some(ImportError::State(StateError::Conflict)));
}

#[test]
fn import_translates_variable_lists() {
    let stream = exported_under(
        &[("x", plain()), ("y", plain())],
        &[vec![0, 1], vec![1]],
        || {
            Atom::new_num(symbolica_atom::coefficient::Coefficient::RationalPolynomial(
                1,
                vec![42],
            ))
        },
    );
    let mut here = State::new();
    here.get_symbol_with_attributes(b"y", plain()).unwrap();
    here.add_variables_list(vec![7]);
    let got = Atom::import(&stream, &mut here, None::<Resolver>).unwrap();
    // x becomes 1 and y becomes 0: the lists become [1, 0] and [0]
    assert_eq!(here.get_variables_list(1), Some(&[1u32, 0][..]));
    assert_eq!(here.get_variables_list(2), Some(&[0u32][..]));
    assert!(
        got.as_view()
            == Atom::new_num(symbolica_atom::coefficient::Coefficient::RationalPolynomial(
                2,
                vec![42]
            ))
            .as_view()
    );
}

#[test]
fn import_of_a_bad_stream_leaves_the_table() {
    let mut here = State::new();
    here.get_symbol_with_attributes(b"y", plain()).unwrap();
    let before = here.clone();
    let r = Atom::import(&[1, 0, 0], &mut here, None::<Resolver>);
    assert_eq!(r.err(), Some(ImportError::Read(ReadError::Truncated)));
    assert_eq!(here, before);
    let stream = exported_under(&[("x", plain())], &[], || Atom::Mul(Mul::new()));
    let r = Atom::import(&stream[..stream.len() - 1], &mut here, None::<Resolver>);
    assert_eq!(r.err(), Some(ImportError::Read(ReadError::Truncated)));
}

#[test]
fn merging_a_table_into_itself_renames_nothing() {
    let mut here = State::new();
    here.get_symbol_with_attributes(b"x", plain()).unwrap();
    here.get_symbol_with_attributes(b"f", symmetric()).unwrap();
    here.add_variables_list(vec![1, 0]);
    let there = here.clone();
    let map = here.merge(&there, None::<Resolver>).unwrap();
    assert_eq!(here, there);
    for id in 0..4 {
        assert_eq!(map.get_symbol(id), None);
        assert_eq!(map.get_variables_list(id as u64), None);
        assert_eq!(map.get_finite_field(id as u64), None);
    }
}

#[test]
fn merging_notes_what_moved() {
    let mut there = State::new();
    there.get_symbol_with_attributes(b"a", plain()).unwrap();
    there.get_symbol_with_attributes(b"b", symmetric()).unwrap();
    there.add_variables_list(vec![0, 1]);
    let mut here = State::new();
    here.get_symbol_with_attributes(b"b", symmetric()).unwrap();
    let map = here.merge(&there, None::<Resolver>).unwrap();
    assert_eq!(map.get_symbol(0), Some(Symbol::raw_var(1, 0)));
    assert_eq!(map.get_symbol(1), Some(Symbol::raw_fn(0, 0, true, false, false, false)));
    assert_eq!(here.get_name(1), Some(&b"a"[..]));
    assert_eq!(here.get_variables_list(0), Some(&[1u32, 0][..]));
    assert_eq!(map.get_variables_list(0), None);
}

#[test]
fn settling_a_symbol() {
    let mut here = State::new();
    here.get_symbol_with_attributes(b"f", plain()).unwrap();
    here.get_symbol_with_attributes(b"g", symmetric()).unwrap();
    // the same symbol
    assert_eq!(here.settle(b"f", plain(), None), Ok(Symbol::raw_var(0, 0)));
    // a free name
    assert_eq!(here.settle(b"h", plain(), None), Ok(Symbol::raw_var(2, 0)));
    // a conflict without a picked name: the symbol that is here
    assert_eq!(here.settle(b"f", symmetric(), None), Ok(Symbol::raw_var(0, 0)));
    // a conflict with a picked name that is known with the same attributes
    assert_eq!(
        here.settle(b"f", symmetric(), Some(b"g".to_vec())),
        Ok(Symbol::raw_fn(1, 0, true, false, false, false))
    );
    // with one that is free
    assert_eq!(
        here.settle(b"f", symmetric(), Some(b"f2".to_vec())),
        Ok(Symbol::raw_fn(3, 0, true, false, false, false))
    );
    // with one that is taken
    assert_eq!(
        here.settle(b"f", symmetric(), Some(b"h".to_vec())),
        Err(StateError::Conflict)
    );
    assert_eq!(here.len(), 4);
}

#[test]
fn import_with_a_function_succeeds_where_no_name_is_taken_otherwise() {
    let stream = exported_under(
        &[("f", symmetric()), ("x", plain()), ("y", plain())],
        &[],
        f_of_x_y,
    );
    // f is known here as the same symbol: the function is not asked
    let mut here = State::new();
    here.get_symbol_with_attributes(b"x", plain()).unwrap();
    here.get_symbol_with_attributes(b"f", symmetric()).unwrap();
    let got = Atom::import(&stream, &mut here, Some(|_name: Vec<u8>| b"x".to_vec())).unwrap();
    assert_eq!(here.len(), 3);
    assert_eq!(here.find(b"y"), Some(2));
    let mut expected = Fun::new_into(Symbol::raw_fn(1, 0, true, false, false, false), Vec::new());
    expected.add_arg(Var::new(Symbol::raw_var(0, 0)).as_view());
    expected.add_arg(Var::new(Symbol::raw_var(2, 0)).as_view());
    assert!(got.as_view() == expected.as_view());
}

#[test]
fn a_picked_name_that_is_held_by_the_same_symbol_is_no_conflict() {
    let mut there = State::new();
    there.get_symbol_with_attributes(b"f", symmetric()).unwrap();
    let mut here = State::new();
    here.get_symbol_with_attributes(b"f", plain()).unwrap();
    here.get_symbol_with_attributes(b"g", symmetric()).unwrap();
    let map = here.merge(&there, Some(|_name: Vec<u8>| b"g".to_vec())).unwrap();
    assert_eq!(here.len(), 2);
    assert_eq!(map.get_symbol(0), Some(Symbol::raw_fn(1, 0, true, false, false, false)));
    // a failed merge leaves the table as it was
    let before = here.clone();
    let r = here.merge(&there, Some(|_name: Vec<u8>| b"f".to_vec()));
    assert_eq!(r.err(), Some(StateError::Conflict));
    assert_eq!(here, before);
}

// f(x, x*y) with the product and the function marked as normalized
fn normalized_f() -> Atom {
    let mut m = Mul::new();
    m.extend(Var::new(Symbol::raw_var(1, 0)).as_view());
    m.extend(Var::new(Symbol::raw_var(2, 0)).as_view());
    m.set_normalized(true);
    let mut f = Fun::new_into(symmetric(), Vec::new());
    f.add_arg(Var::new(Symbol::raw_var(1, 0)).as_view());
    f.add_arg(m.as_view());
    f.set_normalized(true);
    Atom::Fun(f)
}

#[test]
fn import_of_an_export_under_an_agreeing_table_gives_the_bytes_back() {
    let names = [("f", symmetric()), ("x", plain()), ("y", plain())];
    let stream = exported_under(&names, &[vec![2, 1]], normalized_f);
    let original = normalized_f();
    // the same table
    let mut here = State::new();
    for (name, attributes) in &names {
        here.get_symbol_with_attributes(name.as_bytes(), *attributes).unwrap();
    }
    here.add_variables_list(vec![2, 1]);
    let before = here.clone();
    let got = Atom::import(&stream, &mut here, None::<Resolver>).unwrap();
    assert_eq!(got.as_view().get_data(), original.as_view().get_data());
    assert!(matches!(got, Atom::Fun(_)));
    assert_eq!(here, before);
    // a table that holds more, and a function that would rename everything
    here.get_symbol_with_attributes(b"z", symmetric()).unwrap();
    here.add_variables_list(vec![3]);
    let before = here.clone();
    let got = Atom::import(&stream, &mut here, Some(|_name: Vec<u8>| b"other".to_vec())).unwrap();
    assert_eq!(got.as_view().get_data(), original.as_view().get_data());
    assert_eq!(here, before);
}
