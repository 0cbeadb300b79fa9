use crossgrid::consts::{BCKSPC, DOWN, ENTER, LEFT, Q, RIGHT, SPACE, TAB, UP};
use crossgrid::edit::{advance, apply_input, classify, process_input, Direction, Key, Signal};
use crossgrid::types::{Matrix, Mode, Pos};

#[test]
fn classify_maps_every_key_code() {
    assert_eq!(classify(LEFT), Key::Arrow(Direction::Left));
    assert_eq!(classify(RIGHT), Key::Arrow(Direction::Right));
    assert_eq!(classify(UP), Key::Arrow(Direction::Up));
    assert_eq!(classify(DOWN), Key::Arrow(Direction::Down));
    assert_eq!(classify(TAB), Key::ToggleMode);
    assert_eq!(classify(ENTER), Key::Confirm);
    assert_eq!(classify(SPACE), Key::Char(' '));
    assert_eq!(classify(97), Key::Char('a'));
    assert_eq!(classify(122), Key::Char('z'));
    assert_eq!(classify(BCKSPC), Key::Erase);
    assert_eq!(classify(Q), Key::Quit);
    assert_eq!(classify(0), Key::Other);
    assert_eq!(classify(64), Key::Other);
    assert_eq!(classify(123), Key::Other);
}

#[test]
fn typing_fills_and_advances_until_the_edge() {
    // 3x1 grid, horizontal mode, cursor at the origin
    let mut m = Matrix::new(3, 1);
    let mut p = Pos { x: 0, y: 0 };
    let mut mode = Mode::HORIZONTAL;

    apply_input(Key::Char('A'), &mut m, &mut p, &mut mode);
    assert_eq!(m.get_cell(0, 0).value, 'A');
    assert_eq!((p.x, p.y), (1, 0));

    apply_input(Key::Char('B'), &mut m, &mut p, &mut mode);
    assert_eq!(m.get_cell(1, 0).value, 'B');
    assert_eq!((p.x, p.y), (2, 0));

    // the advance past the right edge is dropped
    apply_input(Key::Char('C'), &mut m, &mut p, &mut mode);
    assert_eq!(m.get_cell(2, 0).value, 'C');
    assert_eq!((p.x, p.y), (2, 0));
}

#[test]
fn typing_on_a_filled_cell_is_ignored() {
    let mut m = Matrix::new(2, 2);
    let mut p = Pos { x: 0, y: 0 };
    let mut mode = Mode::HORIZONTAL;
    m.toggle_filled(0, 0);

    let sig = apply_input(Key::Char('x'), &mut m, &mut p, &mut mode);
    assert_eq!(sig, Signal::Continue);
    let c = m.get_cell(0, 0);
    assert!(c.filled);
    assert_eq!(c.value, ' ');
    // the cursor did not move
    assert_eq!((p.x, p.y), (0, 0));
}

#[test]
fn backspace_on_a_filled_cell_blanks_and_steps_back() {
    let mut m = Matrix::new(3, 1);
    let mut p = Pos { x: 1, y: 0 };
    let mut mode = Mode::HORIZONTAL;
    m.toggle_filled(1, 0);

    apply_input(Key::Erase, &mut m, &mut p, &mut mode);
    let c = m.get_cell(1, 0);
    assert_eq!(c.value, ' ');
    assert!(c.filled);
    assert_eq!((p.x, p.y), (0, 0));
}

#[test]
fn backspace_steps_back_along_the_vertical_axis() {
    let mut m = Matrix::new(2, 3);
    let mut p = Pos { x: 0, y: 2 };
    let mut mode = Mode::VERTICAL;
    apply_input(Key::Erase, &mut m, &mut p, &mut mode);
    assert_eq!((p.x, p.y), (0, 1));
}

#[test]
fn arrows_move_and_clamp_at_the_edges() {
    let mut m = Matrix::new(2, 2);
    let mut p = Pos { x: 0, y: 0 };
    let mut mode = Mode::HORIZONTAL;

    apply_input(Key::Arrow(Direction::Left), &mut m, &mut p, &mut mode);
    assert_eq!((p.x, p.y), (0, 0));
    apply_input(Key::Arrow(Direction::Up), &mut m, &mut p, &mut mode);
    assert_eq!((p.x, p.y), (0, 0));
    apply_input(Key::Arrow(Direction::Right), &mut m, &mut p, &mut mode);
    assert_eq!((p.x, p.y), (1, 0));
    apply_input(Key::Arrow(Direction::Right), &mut m, &mut p, &mut mode);
    assert_eq!((p.x, p.y), (1, 0));
    apply_input(Key::Arrow(Direction::Down), &mut m, &mut p, &mut mode);
    assert_eq!((p.x, p.y), (1, 1));
    apply_input(Key::Arrow(Direction::Down), &mut m, &mut p, &mut mode);
    assert_eq!((p.x, p.y), (1, 1));
}

#[test]
fn mode_toggle_flips_the_axis() {
    let mut m = Matrix::new(3, 3);
    let mut p = Pos { x: 0, y: 0 };
    let mut mode = Mode::HORIZONTAL;

    apply_input(Key::ToggleMode, &mut m, &mut p, &mut mode);
    assert_eq!(mode, Mode::VERTICAL);
    // typing now advances downward
    apply_input(Key::Char('a'), &mut m, &mut p, &mut mode);
    assert_eq!((p.x, p.y), (0, 1));
    apply_input(Key::ToggleMode, &mut m, &mut p, &mut mode);
    assert_eq!(mode, Mode::HORIZONTAL);
}

#[test]
fn confirm_toggles_the_cell_and_advances() {
    let mut m = Matrix::new(2, 2);
    let mut p = Pos { x: 0, y: 0 };
    let mut mode = Mode::HORIZONTAL;

    apply_input(Key::Confirm, &mut m, &mut p, &mut mode);
    assert!(m.get_cell(0, 0).filled);
    assert_eq!((p.x, p.y), (1, 0));

    // toggling back reopens the cell
    let mut q = Pos { x: 0, y: 0 };
    apply_input(Key::Confirm, &mut m, &mut q, &mut mode);
    assert!(!m.get_cell(0, 0).filled);
}

#[test]
fn quit_terminates_without_changing_state() {
    let mut m = Matrix::new(2, 2);
    let mut p = Pos { x: 1, y: 1 };
    let mut mode = Mode::VERTICAL;
    let sig = apply_input(Key::Quit, &mut m, &mut p, &mut mode);
    assert_eq!(sig, Signal::Terminate);
    assert_eq!((p.x, p.y), (1, 1));
    assert_eq!(mode, Mode::VERTICAL);
    assert!(!m.get_cell(1, 1).filled);
}

#[test]
fn unknown_keys_change_nothing() {
    let mut m = Matrix::new(2, 2);
    let mut p = Pos { x: 1, y: 0 };
    let (cont, mode) = process_input(7, &mut m, &mut p, Mode::HORIZONTAL);
    assert!(cont);
    assert_eq!(mode, Mode::HORIZONTAL);
    assert_eq!((p.x, p.y), (1, 0));
}

#[test]
fn process_input_runs_raw_key_codes() {
    let mut m = Matrix::new(2, 1);
    let mut p = Pos { x: 0, y: 0 };
    let (cont, mode) = process_input(97, &mut m, &mut p, Mode::HORIZONTAL);
    assert!(cont);
    assert_eq!(mode, Mode::HORIZONTAL);
    assert_eq!(m.get_cell(0, 0).value, 'a');
    assert_eq!((p.x, p.y), (1, 0));

    let (cont, _) = process_input(Q, &mut m, &mut p, mode);
    assert!(!cont);
}

#[test]
fn advance_blocks_forward_on_a_length_one_axis() {
    let mut p = Pos { x: 0, y: 0 };
    advance(Mode::HORIZONTAL, &mut p, 1, 1, 1);
    assert_eq!((p.x, p.y), (0, 0));
    advance(Mode::VERTICAL, &mut p, 1, 1, 1);
    assert_eq!((p.x, p.y), (0, 0));
    advance(Mode::HORIZONTAL, &mut p, 1, 1, -1);
    assert_eq!((p.x, p.y), (0, 0));
}

#[test]
fn advance_moves_within_bounds() {
    let mut p = Pos { x: 1, y: 1 };
    advance(Mode::HORIZONTAL, &mut p, 3, 3, 1);
    assert_eq!((p.x, p.y), (2, 1));
    advance(Mode::HORIZONTAL, &mut p, 3, 3, 1);
    assert_eq!((p.x, p.y), (2, 1));
    advance(Mode::VERTICAL, &mut p, 3, 3, -1);
    assert_eq!((p.x, p.y), (2, 0));
    advance(Mode::VERTICAL, &mut p, 3, 3, -1);
    assert_eq!((p.x, p.y), (2, 0));
}
