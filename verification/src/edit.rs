//! The edit state machine: classified keystrokes, bounded cursor movement,
//! and the transition that one input event applies to grid, cursor and mode.

use vstd::prelude::*;

use crate::consts::{BCKSPC, C_A, C_Z, DOWN, ENTER, LEFT, Q, RIGHT, SPACE, TAB, UP};
use crate::types::{
    cell_ok, grid_wf, lemma_linear_index_in_bounds, linear_index, spec_toggle, Cell, GridView,
    Matrix, Mode, Pos,
};

verus! {

/// One step of cursor movement requested by an arrow key.
#[derive(Clone, Copy, PartialEq, Eq, Structural, Debug)]
pub enum Direction {
    Left,
    Right,
    Up,
    Down,
}

/// A keystroke, classified into the input classes the editor recognizes.
#[derive(Clone, Copy, PartialEq, Eq, Structural, Debug)]
pub enum Key {
    Arrow(Direction),
    ToggleMode,
    Confirm,
    Char(char),
    Erase,
    Quit,
    Other,
}

/// Whether the session goes on after an input event.
#[derive(Clone, Copy, PartialEq, Eq, Structural, Debug)]
pub enum Signal {
    Continue,
    Terminate,
}

/// How a raw key code is classified: arrows move, Tab toggles the mode,
/// Enter toggles the cell, lowercase letters and space type, Backspace
/// erases, Q quits, and everything else is ignored.
pub open spec fn spec_classify(c: i32) -> Key {
    if c == LEFT {
        Key::Arrow(Direction::Left)
    } else if c == RIGHT {
        Key::Arrow(Direction::Right)
    } else if c == UP {
        Key::Arrow(Direction::Up)
    } else if c == DOWN {
        Key::Arrow(Direction::Down)
    } else if c == TAB {
        Key::ToggleMode
    } else if c == ENTER {
        Key::Confirm
    } else if c == SPACE || (C_A <= c && c <= C_Z) {
        Key::Char((c as u8) as char)
    } else if c == BCKSPC {
        Key::Erase
    } else if c == Q {
        Key::Quit
    } else {
        Key::Other
    }
}

/// A classified key carries only a typeable character: space or a lowercase
/// letter.
pub open spec fn key_ok(k: Key) -> bool {
    k matches Key::Char(ch) ==> (' ' <= ch <= '~')
}

/// Translate a raw key code into its input class.
pub fn classify(c: i32) -> (k: Key)
    ensures
        k == spec_classify(c),
        key_ok(k),
{
    if c == LEFT {
        Key::Arrow(Direction::Left)
    } else if c == RIGHT {
        Key::Arrow(Direction::Right)
    } else if c == UP {
        Key::Arrow(Direction::Up)
    } else if c == DOWN {
        Key::Arrow(Direction::Down)
    } else if c == TAB {
        Key::ToggleMode
    } else if c == ENTER {
        Key::Confirm
    } else if c == SPACE || (C_A <= c && c <= C_Z) {
        Key::Char((c as u8) as char)
    } else if c == BCKSPC {
        Key::Erase
    } else if c == Q {
        Key::Quit
    } else {
        Key::Other
    }
}

/// Bounded one-step movement along the mode's axis: a forward step needs the
/// coordinate to stay below the axis length, a backward step needs it to be
/// positive; otherwise the cursor stays put.
pub open spec fn spec_advance(p: Pos, mode: Mode, width: int, height: int, delta: int) -> Pos {
    let coord: int = if mode == Mode::HORIZONTAL {
        p.x as int
    } else {
        p.y as int
    };
    let axis_len: int = if mode == Mode::HORIZONTAL {
        width
    } else {
        height
    };
    let valid: bool = if delta == 1 {
        coord + 1 < axis_len
    } else {
        coord > 0
    };
    if valid {
        if mode == Mode::HORIZONTAL {
            Pos { x: (p.x + delta) as usize, y: p.y }
        } else {
            Pos { x: p.x, y: (p.y + delta) as usize }
        }
    } else {
        p
    }
}

/// Advance the cursor one step along the active axis, dropping the move at
/// the grid edge. A length-one axis blocks every forward advance.
pub fn advance(mode: Mode, p: &mut Pos, width: usize, height: usize, delta: i32)
    requires
        old(p).x < width,
        old(p).y < height,
        delta == 1 || delta == -1,
    ensures
        *final(p) == spec_advance(*old(p), mode, width as int, height as int, delta as int),
        final(p).x < width,
        final(p).y < height,
{
    let coord: usize = if mode == Mode::HORIZONTAL {
        p.x
    } else {
        p.y
    };
    let max_value = if mode == Mode::HORIZONTAL {
        width
    } else {
        height
    };
    let valid = if delta == 1 {
        coord + 1 < max_value
    } else {
        coord > 0
    };
    if valid {
        if mode == Mode::HORIZONTAL {
            if delta == 1 {
                p.x = p.x + 1;
            } else {
                p.x = p.x - 1;
            }
        } else {
            if delta == 1 {
                p.y = p.y + 1;
            } else {
                p.y = p.y - 1;
            }
        }
    }
}

/// What one input event does to the grid, the cursor, the mode and the
/// session signal. Arrows move one cell, clamped at the edges; Tab flips the
/// mode; Enter toggles the cursor cell and advances; a character fills an
/// open cell and advances, and is ignored on a filled cell; Backspace blanks
/// the cell and steps backward; Q terminates; anything else is a no-op.
pub open spec fn spec_step(key: Key, g: GridView, p: Pos, mode: Mode) -> (GridView, Pos, Mode, Signal) {
    let w = g.width as int;
    let h = g.height as int;
    let i = linear_index(p.x as int, p.y as int, w);
    match key {
        Key::Arrow(d) => {
            let q = match d {
                Direction::Left => if p.x > 0 {
                    Pos { x: (p.x - 1) as usize, y: p.y }
                } else {
                    p
                },
                Direction::Right => if p.x + 1 < w {
                    Pos { x: (p.x + 1) as usize, y: p.y }
                } else {
                    p
                },
                Direction::Up => if p.y > 0 {
                    Pos { x: p.x, y: (p.y - 1) as usize }
                } else {
                    p
                },
                Direction::Down => if p.y + 1 < h {
                    Pos { x: p.x, y: (p.y + 1) as usize }
                } else {
                    p
                },
            };
            (g, q, mode, Signal::Continue)
        },
        Key::ToggleMode => {
            let flipped = if mode == Mode::HORIZONTAL {
                Mode::VERTICAL
            } else {
                Mode::HORIZONTAL
            };
            (g, p, flipped, Signal::Continue)
        },
        Key::Confirm => {
            let cells = g.cells.update(i, spec_toggle(g.cells[i]));
            (
                GridView { width: g.width, height: g.height, cells },
                spec_advance(p, mode, w, h, 1),
                mode,
                Signal::Continue,
            )
        },
        Key::Char(ch) => {
            if g.cells[i].filled {
                (g, p, mode, Signal::Continue)
            } else {
                let cells = g.cells.update(i, Cell { filled: false, value: ch });
                (
                    GridView { width: g.width, height: g.height, cells },
                    spec_advance(p, mode, w, h, 1),
                    mode,
                    Signal::Continue,
                )
            }
        },
        Key::Erase => {
            let cells = g.cells.update(i, Cell { filled: g.cells[i].filled, value: ' ' });
            (
                GridView { width: g.width, height: g.height, cells },
                spec_advance(p, mode, w, h, -1),
                mode,
                Signal::Continue,
            )
        },
        Key::Quit => (g, p, mode, Signal::Terminate),
        Key::Other => (g, p, mode, Signal::Continue),
    }
}

/// Apply one classified input event to the session state, returning whether
/// the session goes on. The result is exactly `spec_step` of the old state;
/// the grid stays well-formed and the cursor stays in bounds.
pub fn apply_input(key: Key, m: &mut Matrix, p: &mut Pos, mode: &mut Mode) -> (sig: Signal)
    requires
        old(m).wf(),
        old(p).x < old(m)@.width,
        old(p).y < old(m)@.height,
        key_ok(key),
    ensures
        ({
            let t = spec_step(key, old(m)@, *old(p), *old(mode));
            &&& final(m)@ == t.0
            &&& *final(p) == t.1
            &&& *final(mode) == t.2
            &&& sig == t.3
        }),
        final(m).wf(),
        final(p).x < final(m)@.width,
        final(p).y < final(m)@.height,
{
    let width = m.width();
    let height = m.height();
    proof {
        lemma_linear_index_in_bounds(
            p.x as int,
            p.y as int,
            old(m)@.width as int,
            old(m)@.height as int,
        );
    }
    let ghost i = linear_index(p.x as int, p.y as int, old(m)@.width as int);
    match key {
        Key::Arrow(d) => {
            match d {
                Direction::Left => {
                    if p.x > 0 {
                        p.x = p.x - 1;
                    }
                },
                Direction::Right => {
                    if p.x < width - 1 {
                        p.x = p.x + 1;
                    }
                },
                Direction::Up => {
                    if p.y > 0 {
                        p.y = p.y - 1;
                    }
                },
                Direction::Down => {
                    if p.y < height - 1 {
                        p.y = p.y + 1;
                    }
                },
            }
            Signal::Continue
        },
        Key::ToggleMode => {
            *mode = if *mode == Mode::HORIZONTAL {
                Mode::VERTICAL
            } else {
                Mode::HORIZONTAL
            };
            Signal::Continue
        },
        Key::Confirm => {
            let cell = m.get_cell_mut(p.x, p.y);
            cell.toggle_filled();
            advance(*mode, p, width, height, 1);
            proof {
                assert forall|j: int| 0 <= j < final(m)@.cells.len() implies cell_ok(
                    #[trigger] final(m)@.cells[j],
                ) by {
                    assert(cell_ok(old(m)@.cells[j]));
                }
            }
            Signal::Continue
        },
        Key::Char(ch) => {
            let cell = m.get_cell_mut(p.x, p.y);
            if !cell.filled {
                cell.value = ch;
                advance(*mode, p, width, height, 1);
                proof {
                    assert forall|j: int| 0 <= j < final(m)@.cells.len() implies cell_ok(
                        #[trigger] final(m)@.cells[j],
                    ) by {
                        assert(cell_ok(old(m)@.cells[j]));
                    }
                }
            } else {
                proof {
                    assert(final(m)@.cells =~= old(m)@.cells);
                    assert(final(m)@ =~= old(m)@);
                }
            }
            Signal::Continue
        },
        Key::Erase => {
            let cell = m.get_cell_mut(p.x, p.y);
            cell.value = ' ';
            advance(*mode, p, width, height, -1);
            proof {
                assert forall|j: int| 0 <= j < final(m)@.cells.len() implies cell_ok(
                    #[trigger] final(m)@.cells[j],
                ) by {
                    assert(cell_ok(old(m)@.cells[j]));
                }
            }
            Signal::Continue
        },
        Key::Quit => Signal::Terminate,
        Key::Other => Signal::Continue,
    }
}

/// Apply one raw key code, as the host loop reads them, returning whether
/// the session goes on and the (possibly flipped) typing mode.
pub fn process_input(c: i32, m: &mut Matrix, p: &mut Pos, mode: Mode) -> (r: (bool, Mode))
    requires
        old(m).wf(),
        old(p).x < old(m)@.width,
        old(p).y < old(m)@.height,
    ensures
        ({
            let t = spec_step(spec_classify(c), old(m)@, *old(p), mode);
            &&& final(m)@ == t.0
            &&& *final(p) == t.1
            &&& r.1 == t.2
            &&& r.0 == (t.3 == Signal::Continue)
        }),
        final(m).wf(),
        final(p).x < final(m)@.width,
        final(p).y < final(m)@.height,
{
    let key = classify(c);
    let mut md = mode;
    let sig = apply_input(key, m, p, &mut md);
    let cont = match sig {
        Signal::Continue => true,
        Signal::Terminate => false,
    };
    (cont, md)
}

/// The state after a whole sequence of input events, applied in order.
pub open spec fn spec_run(keys: Seq<Key>, g: GridView, p: Pos, mode: Mode) -> (GridView, Pos, Mode)
    decreases keys.len(),
{
    if keys.len() == 0 {
        (g, p, mode)
    } else {
        let t = spec_step(keys[0], g, p, mode);
        spec_run(keys.drop_first(), t.0, t.1, t.2)
    }
}

/// One step keeps the grid dimensions and keeps the cursor inside them.
pub proof fn lemma_step_cursor_in_bounds(key: Key, g: GridView, p: Pos, mode: Mode)
    requires
        p.x < g.width,
        p.y < g.height,
    ensures
        ({
            let t = spec_step(key, g, p, mode);
            &&& t.0.width == g.width
            &&& t.0.height == g.height
            &&& t.1.x < g.width
            &&& t.1.y < g.height
        }),
{
}

/// One step of a valid key on a well-formed grid yields a well-formed grid.
pub proof fn lemma_step_preserves_wf(key: Key, g: GridView, p: Pos, mode: Mode)
    requires
        grid_wf(g),
        p.x < g.width,
        p.y < g.height,
        key_ok(key),
    ensures
        grid_wf(spec_step(key, g, p, mode).0),
{
    lemma_linear_index_in_bounds(p.x as int, p.y as int, g.width as int, g.height as int);
    let t = spec_step(key, g, p, mode);
    assert forall|j: int| 0 <= j < t.0.cells.len() implies cell_ok(#[trigger] t.0.cells[j]) by {
        assert(cell_ok(g.cells[j]));
    }
}

/// The cursor never leaves the grid under any sequence of input events, and
/// the grid dimensions never change.
pub proof fn lemma_run_cursor_in_bounds(keys: Seq<Key>, g: GridView, p: Pos, mode: Mode)
    requires
        p.x < g.width,
        p.y < g.height,
    ensures
        ({
            let t = spec_run(keys, g, p, mode);
            &&& t.0.width == g.width
            &&& t.0.height == g.height
            &&& t.1.x < g.width
            &&& t.1.y < g.height
        }),
    decreases keys.len(),
{
    if keys.len() > 0 {
        lemma_step_cursor_in_bounds(keys[0], g, p, mode);
        let t = spec_step(keys[0], g, p, mode);
        lemma_run_cursor_in_bounds(keys.drop_first(), t.0, t.1, t.2);
    }
}

/// Every grid reachable by valid input events from a well-formed grid is
/// well-formed: in particular a filled cell always holds the blank value.
pub proof fn lemma_run_preserves_wf(keys: Seq<Key>, g: GridView, p: Pos, mode: Mode)
    requires
        grid_wf(g),
        p.x < g.width,
        p.y < g.height,
        forall|i: int| 0 <= i < keys.len() ==> key_ok(#[trigger] keys[i]),
    ensures
        grid_wf(spec_run(keys, g, p, mode).0),
    decreases keys.len(),
{
    if keys.len() > 0 {
        lemma_step_cursor_in_bounds(keys[0], g, p, mode);
        lemma_step_preserves_wf(keys[0], g, p, mode);
        let t = spec_step(keys[0], g, p, mode);
        assert forall|i: int| 0 <= i < keys.drop_first().len() implies key_ok(
            #[trigger] keys.drop_first()[i],
        ) by {
            assert(key_ok(keys[i + 1]));
        }
        lemma_run_preserves_wf(keys.drop_first(), t.0, t.1, t.2);
    }
}

} // verus!
