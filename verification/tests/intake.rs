use std::io::Read;
use symbolica_atom::atom::Atom;
use symbolica_atom::builder::{Fun, Var};
use symbolica_atom::intake::{extent, missing, missing_of_frame, Intake};
use symbolica_atom::state::State;
use symbolica_atom::symbol::Symbol;

// f(x) under the table f, x, with the variable list [1, 0]
fn small_export() -> Vec<u8> {
    let mut table = State::new();
    table
        .get_symbol_with_attributes(b"f", Symbol::raw_fn(0, 0, true, false, false, false))
        .unwrap();
    table.get_symbol_with_attributes(b"x", Symbol::raw_var(0, 0)).unwrap();
    table.add_variables_list(vec![1, 0]);
    let mut f = Fun::new_into(Symbol::raw_fn(0, 0, true, false, false, false), Vec::new());
    f.add_arg(Var::new(Symbol::raw_var(1, 0)).as_view());
    let mut out = Vec::new();
    Atom::Fun(f).as_view().export(&table, &mut out);
    out
}

fn read_by(source: &mut &[u8], ask: fn(&[u8]) -> Option<usize>) -> Vec<u8> {
    let mut bytes = Vec::new();
    loop {
        match ask(&bytes).unwrap() {
            0 => return bytes,
            n => {
                let start = bytes.len();
                bytes.resize(start + n, 0);
                source.read_exact(&mut bytes[start..]).unwrap();
            }
        }
    }
}

#[test]
fn nothing_is_missing_of_a_whole_export() {
    let e = small_export();
    assert_eq!(missing(&e), Some(0));
    assert_eq!(extent(&e), Some(e.len()));
    let mut more = e.clone();
    more.extend_from_slice(&[0xff; 20]);
    assert_eq!(missing(&more), Some(0));
    assert_eq!(extent(&more), Some(e.len()));
}

#[test]
fn a_part_of_an_export_misses_bytes_of_the_export() {
    let e = small_export();
    for k in 0..e.len() {
        let n = missing(&e[..k]).unwrap();
        assert!(0 < n && n <= e.len() - k, "at {k}: {n}");
    }
}

#[test]
fn what_is_missing_is_told_item_by_item() {
    let e = small_export();
    // the number of symbols
    assert_eq!(missing(&[]), Some(8));
    assert_eq!(missing(&e[..3]), Some(5));
    // the length of the first name
    assert_eq!(missing(&e[..8]), Some(8));
    // the name, one byte, and the first two bytes of the variable
    assert_eq!(missing(&e[..16]), Some(3));
    // the id, one byte
    assert_eq!(missing(&e[..19]), Some(1));
    // two symbols of 8 + 1 + 3 bytes: the number of variable lists
    assert_eq!(missing(&e[..32]), Some(8));
    // the length of the list, and its two ids
    assert_eq!(missing(&e[..40]), Some(8));
    assert_eq!(missing(&e[..48]), Some(8));
    // the number of expressions, the head of the frame, and the expression
    assert_eq!(missing(&e[..56]), Some(8));
    assert_eq!(missing(&e[..64]), Some(9));
    assert_eq!(missing(&e[..73]), Some(e.len() - 73));
    assert_eq!(e.len(), 73 + 10);
}

#[test]
fn a_length_that_no_buffer_holds_is_refused() {
    // one symbol whose name is announced with 2^64 - 1 bytes
    let mut s = vec![1u8, 0, 0, 0, 0, 0, 0, 0];
    s.extend_from_slice(&[0xff; 8]);
    assert_eq!(missing(&s), None);
    assert_eq!(extent(&s), None);
    let mut f = vec![0u8];
    f.extend_from_slice(&[0xff; 8]);
    assert_eq!(missing_of_frame(&f), None);
}

#[test]
fn a_reader_stops_at_the_end_of_the_export() {
    let e = small_export();
    let mut stream = e.clone();
    stream.extend_from_slice(b"what follows");
    let mut source = &stream[..];
    let got = read_by(&mut source, missing);
    assert_eq!(got, e);
    assert_eq!(source, b"what follows");
    let mut here = State::new();
    let atom = Atom::import(&got, &mut here, None::<fn(Vec<u8>) -> Vec<u8>>).unwrap();
    assert_eq!(here.len(), 2);
    match atom {
        Atom::Fun(f) => assert_eq!(f.get_nargs(), 1),
        _ => panic!("a function"),
    }
}

#[test]
fn a_reader_stops_at_the_end_of_a_frame() {
    let x = Var::new(Symbol::raw_var(300, 1));
    let mut stream = Vec::new();
    x.as_view().write(&mut stream);
    let n = stream.len();
    assert_eq!(missing_of_frame(&[]), Some(9));
    assert_eq!(missing_of_frame(&stream[..9]), Some(n - 9));
    assert_eq!(missing_of_frame(&stream[..n - 1]), Some(1));
    assert_eq!(missing_of_frame(&stream), Some(0));
    stream.extend_from_slice(&[7, 7]);
    let mut source = &stream[..];
    let got = read_by(&mut source, missing_of_frame);
    assert_eq!(got.len(), n);
    assert_eq!(source, &[7, 7]);
    let mut a = Atom::new();
    assert!(a.read(&got).is_ok());
    assert!(a.as_view() == x.as_view());
}

#[test]
fn a_reader_that_keeps_its_place_is_told_the_same() {
    let e = small_export();
    // fed byte by byte, and asked after each byte
    let mut intake = Intake::new();
    assert_eq!(intake.missing(), Some(8));
    for k in 0..e.len() {
        intake.take(&e[k..k + 1]);
        assert_eq!(intake.missing(), missing(&e[..k + 1]), "at {k}");
        assert_eq!(intake.bytes(), &e[..k + 1]);
    }
    assert_eq!(intake.missing(), Some(0));
    // fed what it asks for, from a stream that goes on
    let mut stream = e.clone();
    stream.extend_from_slice(b"what follows");
    let mut source = &stream[..];
    let mut intake = Intake::new();
    let mut asked = Vec::new();
    loop {
        let n = intake.missing().unwrap();
        if n == 0 {
            break;
        }
        asked.push(n);
        let mut chunk = vec![0; n];
        source.read_exact(&mut chunk).unwrap();
        intake.take(&chunk);
    }
    assert_eq!(intake.bytes(), &e[..]);
    assert_eq!(source, b"what follows");
    assert_eq!(asked, vec![8, 8, 3, 1, 8, 3, 1, 8, 8, 8, 8, 9, 10]);
    // more than it asked for changes nothing once the export is whole
    intake.take(b"what follows");
    assert_eq!(intake.missing(), Some(0));
    // a length that no buffer holds
    let mut intake = Intake::new();
    intake.take(&[1, 0, 0, 0, 0, 0, 0, 0]);
    intake.take(&[0xff; 8]);
    assert_eq!(intake.missing(), None);
}
