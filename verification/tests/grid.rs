use crossgrid::types::{Cell, Matrix, Mode, Pos};
use crossgrid::edit::{apply_input, Key};

#[test]
fn new_grid_is_blank() {
    let m = Matrix::new(3, 2);
    assert_eq!(m.width(), 3);
    assert_eq!(m.height(), 2);
    for y in 0..2 {
        for x in 0..3 {
            let c = m.get_cell(x, y);
            assert!(!c.filled);
            assert_eq!(c.value, ' ');
        }
    }
    assert!(m.is_well_formed());
}

#[test]
fn toggle_cell_twice_restores_filled_state() {
    let mut c = Cell { filled: false, value: 'x' };
    c.toggle_filled();
    assert!(c.filled);
    assert_eq!(c.value, ' ');
    c.toggle_filled();
    assert!(!c.filled);
    assert_eq!(c.value, ' ');

    let mut b = Cell { filled: true, value: ' ' };
    b.toggle_filled();
    assert!(!b.filled);
    assert_eq!(b.value, ' ');
    b.toggle_filled();
    assert!(b.filled);
    assert_eq!(b.value, ' ');
}

#[test]
fn matrix_toggle_blanks_the_cell() {
    let mut m = Matrix::new(2, 2);
    {
        let c = m.get_cell_mut(1, 1);
        c.value = 'q';
    }
    m.toggle_filled(1, 1);
    let c = m.get_cell(1, 1);
    assert!(c.filled);
    assert_eq!(c.value, ' ');
    let other = m.get_cell(0, 0);
    assert!(!other.filled);
}

#[test]
fn get_cell_mut_writes_through() {
    let mut m = Matrix::new(2, 1);
    {
        let c = m.get_cell_mut(0, 0);
        c.value = 'z';
    }
    assert_eq!(m.get_cell(0, 0).value, 'z');
    assert_eq!(m.get_cell(1, 0).value, ' ');
}

#[test]
fn from_parts_rebuilds_a_grid() {
    let cells = vec![
        Cell { filled: false, value: 'a' },
        Cell { filled: true, value: ' ' },
        Cell { filled: false, value: ' ' },
        Cell { filled: false, value: 'b' },
    ];
    let m = Matrix::from_parts(2, 2, cells);
    assert!(m.is_well_formed());
    assert_eq!(m.get_cell(0, 0).value, 'a');
    assert!(m.get_cell(1, 0).filled);
    assert_eq!(m.get_cell(1, 1).value, 'b');
}

#[test]
fn filled_cells_stay_blank_through_edits() {
    let mut m = Matrix::new(3, 3);
    let mut p = Pos { x: 0, y: 0 };
    let mut mode = Mode::HORIZONTAL;
    // block a cell, type over the grid, erase, block another
    let keys = [
        Key::Confirm,
        Key::Char('a'),
        Key::Char('b'),
        Key::Erase,
        Key::ToggleMode,
        Key::Confirm,
        Key::Char('c'),
        Key::Arrow(crossgrid::edit::Direction::Down),
        Key::Confirm,
    ];
    for k in keys {
        apply_input(k, &mut m, &mut p, &mut mode);
    }
    assert!(m.is_well_formed());
    for y in 0..3 {
        for x in 0..3 {
            let c = m.get_cell(x, y);
            if c.filled {
                assert_eq!(c.value, ' ');
            }
        }
    }
}
