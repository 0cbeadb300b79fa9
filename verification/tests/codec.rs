use crossgrid::codec::{load, save, string_to_bool, string_to_char, string_to_i32, CodecError};
use crossgrid::consts::{ENTER, SPACE, TAB};
use crossgrid::edit::process_input;
use crossgrid::types::{Cell, Matrix, Mode, Pos};

fn grids_equal(a: &Matrix, b: &Matrix) -> bool {
    if a.width() != b.width() || a.height() != b.height() {
        return false;
    }
    for y in 0..a.height() {
        for x in 0..a.width() {
            let ca = a.get_cell(x, y);
            let cb = b.get_cell(x, y);
            if ca.filled != cb.filled || ca.value != cb.value {
                return false;
            }
        }
    }
    true
}

#[test]
fn save_renders_the_exact_format() {
    let cells = vec![
        Cell { filled: false, value: 'a' },
        Cell { filled: true, value: ' ' },
    ];
    let m = Matrix::from_parts(2, 1, cells);
    let bytes = save(&m);
    assert_eq!(bytes, b"1\n2,1\nfalse,a\ntrue, \n".to_vec());
}

#[test]
fn round_trip_minimal_grid() {
    // every blocked/value combination on the 2x2 minimum size
    let cells = vec![
        Cell { filled: true, value: ' ' },
        Cell { filled: false, value: 'k' },
        Cell { filled: false, value: ' ' },
        Cell { filled: false, value: ',' },
    ];
    let m = Matrix::from_parts(2, 2, cells);
    let bytes = save(&m);
    let back = load(&bytes).expect("a saved grid loads");
    assert!(grids_equal(&m, &back));
}

#[test]
fn round_trip_large_grid() {
    let mut cells = Vec::new();
    for i in 0..121u32 {
        if i % 3 == 0 {
            cells.push(Cell { filled: true, value: ' ' });
        } else if i % 3 == 1 {
            cells.push(Cell { filled: false, value: (b'a' + (i % 26) as u8) as char });
        } else {
            cells.push(Cell { filled: false, value: ' ' });
        }
    }
    let m = Matrix::from_parts(11, 11, cells);
    let bytes = save(&m);
    let back = load(&bytes).expect("a saved grid loads");
    assert!(grids_equal(&m, &back));
}

#[test]
fn unsupported_version_fails_and_host_falls_back() {
    let bytes = b"2\n2,2\nfalse,a\nfalse,b\nfalse,c\nfalse,d\n".to_vec();
    let r = load(&bytes);
    assert_eq!(r.unwrap_err(), CodecError::UnsupportedFormatVersion);
    // the host treats the failure as no prior state and starts blank
    let fallback = match load(&bytes) {
        Ok(m) => m,
        Err(_) => Matrix::new(11, 11),
    };
    assert_eq!(fallback.width(), 11);
    assert_eq!(fallback.height(), 11);
    assert!(!fallback.get_cell(0, 0).filled);
}

#[test]
fn zero_dimensions_are_invalid() {
    assert_eq!(load(&b"1\n0,5\n".to_vec()).unwrap_err(), CodecError::InvalidDimensions);
    assert_eq!(load(&b"1\n5,0\n".to_vec()).unwrap_err(), CodecError::InvalidDimensions);
}

#[test]
fn malformed_records_are_rejected() {
    // empty, and a bare version line
    assert_eq!(load(&b"".to_vec()).unwrap_err(), CodecError::MalformedRecord);
    assert_eq!(load(&b"1\n".to_vec()).unwrap_err(), CodecError::MalformedRecord);
    // dimensions that are not numbers, or not canonically written
    assert_eq!(load(&b"1\nx,2\n".to_vec()).unwrap_err(), CodecError::MalformedRecord);
    assert_eq!(load(&b"1\n02,1\nfalse,a\nfalse,b\n".to_vec()).unwrap_err(),
        CodecError::MalformedRecord);
    // too few records
    assert_eq!(load(&b"1\n2,1\nfalse,a\n".to_vec()).unwrap_err(), CodecError::MalformedRecord);
    // trailing bytes after the last record
    assert_eq!(load(&b"1\n1,1\nfalse,a\nx".to_vec()).unwrap_err(), CodecError::MalformedRecord);
    // a filled cell carrying a letter breaks the cell invariant
    assert_eq!(load(&b"1\n1,1\ntrue,x\n".to_vec()).unwrap_err(), CodecError::MalformedRecord);
    // a flag that is neither true nor false
    assert_eq!(load(&b"1\n1,1\nmaybe,a\n".to_vec()).unwrap_err(), CodecError::MalformedRecord);
    // a width too large for any byte sequence
    assert_eq!(load(&b"1\n99999999999999999999999,1\nfalse,a\n".to_vec()).unwrap_err(),
        CodecError::MalformedRecord);
}

#[test]
fn loads_a_hand_written_file() {
    let bytes = b"1\n2,2\nfalse,h\ntrue, \nfalse, \nfalse,!\n".to_vec();
    let m = load(&bytes).expect("well-formed bytes load");
    assert_eq!(m.width(), 2);
    assert_eq!(m.height(), 2);
    assert_eq!(m.get_cell(0, 0).value, 'h');
    assert!(m.get_cell(1, 0).filled);
    assert_eq!(m.get_cell(0, 1).value, ' ');
    assert_eq!(m.get_cell(1, 1).value, '!');
}

#[test]
fn round_trip_after_editing() {
    let mut m = Matrix::new(4, 3);
    let mut p = Pos { x: 0, y: 0 };
    let mut mode = Mode::HORIZONTAL;
    for c in [104, 105, ENTER, TAB, 118, SPACE] {
        let (cont, mode_) = process_input(c, &mut m, &mut p, mode);
        assert!(cont);
        mode = mode_;
    }
    // "hi", a block toggled at (2,0), then "v" and a space downward at x=3
    let bytes = save(&m);
    let back = load(&bytes).expect("a saved grid loads");
    assert!(grids_equal(&m, &back));
    assert_eq!(back.get_cell(0, 0).value, 'h');
    assert_eq!(back.get_cell(1, 0).value, 'i');
    assert!(back.get_cell(2, 0).filled);
    assert_eq!(back.get_cell(3, 0).value, 'v');
    assert_eq!(back.get_cell(3, 1).value, ' ');
}

#[test]
fn string_to_i32_parses_and_defaults() {
    assert_eq!(string_to_i32(&String::from("42")), 42);
    assert_eq!(string_to_i32(&String::from("-7")), -7);
    assert_eq!(string_to_i32(&String::from("+5")), 5);
    assert_eq!(string_to_i32(&String::from("007")), 7);
    assert_eq!(string_to_i32(&String::from("0")), 0);
    assert_eq!(string_to_i32(&String::from("")), 0);
    assert_eq!(string_to_i32(&String::from("abc")), 0);
    assert_eq!(string_to_i32(&String::from("1a")), 0);
    assert_eq!(string_to_i32(&String::from("-")), 0);
    assert_eq!(string_to_i32(&String::from("2147483647")), 2147483647);
    assert_eq!(string_to_i32(&String::from("2147483648")), 0);
    assert_eq!(string_to_i32(&String::from("-2147483648")), -2147483648);
    assert_eq!(string_to_i32(&String::from("-2147483649")), 0);
    assert_eq!(string_to_i32(&String::from("99999999999999999999")), 0);
}

#[test]
fn string_to_bool_accepts_only_the_exact_word() {
    assert!(string_to_bool(&String::from("true")));
    assert!(!string_to_bool(&String::from("false")));
    assert!(!string_to_bool(&String::from("TRUE")));
    assert!(!string_to_bool(&String::from("t")));
    assert!(!string_to_bool(&String::from("")));
}

#[test]
fn string_to_char_takes_single_characters() {
    assert_eq!(string_to_char(&String::from("x")), 'x');
    assert_eq!(string_to_char(&String::from(",")), ',');
    assert_eq!(string_to_char(&String::from("ab")), ' ');
    assert_eq!(string_to_char(&String::from("")), ' ');
}
