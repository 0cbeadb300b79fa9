//! The grid model: cells, the cursor position, the typing mode, and the
//! rectangular matrix of cells addressed by `(x, y)` coordinates.

use vstd::prelude::*;

verus! {

/// Axis along which the cursor advances after an edit.
#[derive(Clone, Copy, PartialEq, Eq, Structural, Debug)]
pub enum Mode {
    HORIZONTAL,
    VERTICAL,
}

/// A cursor position inside the grid.
#[derive(Clone, Copy, PartialEq, Eq, Structural, Debug)]
pub struct Pos {
    pub x: usize,
    pub y: usize,
}

/// One grid cell: either filled (a barrier holding no letter) or open,
/// holding a single display character.
#[derive(Clone, Copy, PartialEq, Eq, Structural, Debug)]
pub struct Cell {
    pub filled: bool,
    pub value: char,
}

/// A cell is valid when a filled cell holds only the blank character and the
/// stored character is printable ASCII (blank through tilde).
pub open spec fn cell_ok(c: Cell) -> bool {
    &&& c.filled ==> c.value == ' '
    &&& ' ' <= c.value <= '~'
}

/// What toggling a cell's filled state does: flipping to filled clears the
/// value; flipping back to open keeps the (blank) value.
pub open spec fn spec_toggle(c: Cell) -> Cell {
    if c.filled {
        Cell { filled: false, value: c.value }
    } else {
        Cell { filled: true, value: ' ' }
    }
}

impl Cell {
    /// Flip the filled state; a cell that becomes filled is blanked.
    pub fn toggle_filled(&mut self)
        ensures
            *final(self) == spec_toggle(*old(self)),
    {
        self.filled = !self.filled;
        if self.filled {
            self.value = ' ';
        }
    }
}

/// Toggling a cell twice restores its filled state; the value ends up blank,
/// so the whole cell is restored exactly when it was a valid filled cell or
/// already blank.
pub proof fn lemma_toggle_filled_twice(c: Cell)
    ensures
        spec_toggle(spec_toggle(c)).filled == c.filled,
        spec_toggle(spec_toggle(c)).value == ' ',
        c.value == ' ' ==> spec_toggle(spec_toggle(c)) == c,
{
}

/// The mathematical content of a grid: its dimensions and the flat row-major
/// cell sequence.
#[verifier::ext_equal]
pub ghost struct GridView {
    pub width: nat,
    pub height: nat,
    pub cells: Seq<Cell>,
}

/// Row-major linear index of coordinate `(x, y)` in a grid of width `w`.
pub open spec fn linear_index(x: int, y: int, w: int) -> int {
    y * w + x
}

/// The linear index of an in-bounds coordinate is in bounds for the flat
/// cell sequence.
pub proof fn lemma_linear_index_in_bounds(x: int, y: int, w: int, h: int)
    requires
        0 <= x < w,
        0 <= y < h,
    ensures
        0 <= linear_index(x, y, w) < w * h,
{
    assert(0 <= y * w + x < w * h) by (nonlinear_arith)
        requires
            0 <= x < w,
            0 <= y < h,
    ;
}

/// A well-formed grid has positive dimensions, exactly `width * height`
/// cells, and every cell valid.
pub open spec fn grid_wf(g: GridView) -> bool {
    &&& 0 < g.width
    &&& 0 < g.height
    &&& g.cells.len() == g.width * g.height
    &&& forall|i: int| 0 <= i < g.cells.len() ==> cell_ok(#[trigger] g.cells[i])
}

/// The rectangular grid: `width * height` cells in row-major order. The flat
/// layout is not exposed; callers go through the coordinate accessors.
#[derive(Debug)]
pub struct Matrix {
    pub(crate) width: usize,
    pub(crate) height: usize,
    pub(crate) cells: Vec<Cell>,
}

impl View for Matrix {
    type V = GridView;

    closed spec fn view(&self) -> GridView {
        GridView { width: self.width as nat, height: self.height as nat, cells: self.cells@ }
    }
}

impl Matrix {
    pub open spec fn wf(&self) -> bool {
        grid_wf(self@)
    }

    /// The cell stored at coordinate `(x, y)`.
    pub open spec fn spec_cell(&self, x: int, y: int) -> Cell {
        self@.cells[linear_index(x, y, self@.width as int)]
    }

    pub fn width(&self) -> (w: usize)
        ensures
            w == self@.width,
    {
        self.width
    }

    pub fn height(&self) -> (h: usize)
        ensures
            h == self@.height,
    {
        self.height
    }

    /// A fresh grid of the given dimensions, all cells open and blank.
    pub fn new(width: usize, height: usize) -> (m: Matrix)
        requires
            0 < width,
            0 < height,
            width * height <= usize::MAX,
        ensures
            m.wf(),
            m@.width == width,
            m@.height == height,
            forall|i: int|
                0 <= i < m@.cells.len() ==> m@.cells[i] == (Cell { filled: false, value: ' ' }),
    {
        let n = width * height;
        let mut cells: Vec<Cell> = Vec::new();
        let mut i: usize = 0;
        while i < n
            invariant
                i <= n,
                cells@.len() == i,
                forall|j: int|
                    0 <= j < i ==> cells@[j] == (Cell { filled: false, value: ' ' }),
            decreases n - i,
        {
            cells.push(Cell { filled: false, value: ' ' });
            i = i + 1;
        }
        Matrix { width, height, cells }
    }

    /// A grid assembled from its parts; the persistence codec and tests use
    /// this to rebuild a grid whose cells are already known to be valid.
    pub fn from_parts(width: usize, height: usize, cells: Vec<Cell>) -> (m: Matrix)
        requires
            0 < width,
            0 < height,
            cells@.len() == width * height,
            forall|i: int| 0 <= i < cells@.len() ==> cell_ok(#[trigger] cells@[i]),
        ensures
            m.wf(),
            m@.width == width,
            m@.height == height,
            m@.cells == cells@,
    {
        Matrix { width, height, cells }
    }

    /// A runtime check for well-formedness, for callers outside verified code.
    pub fn is_well_formed(&self) -> (b: bool)
        ensures
            b == self.wf(),
    {
        if self.width == 0 || self.height == 0 {
            return false;
        }
        let len = self.cells.len();
        let n = match self.width.checked_mul(self.height) {
            Some(n) => n,
            None => {
                proof {
                    assert(self@.cells.len() < self@.width * self@.height);
                }
                return false;
            },
        };
        if len != n {
            return false;
        }
        let mut i: usize = 0;
        while i < n
            invariant
                i <= n,
                n == self.width * self.height,
                self@.cells.len() == n,
                forall|j: int| 0 <= j < i ==> cell_ok(#[trigger] self@.cells[j]),
            decreases n - i,
        {
            let c = self.cells[i];
            if !((!c.filled || c.value == ' ') && ' ' <= c.value && c.value <= '~') {
                return false;
            }
            i = i + 1;
        }
        true
    }

    /// Borrow the cell at `(x, y)`; out-of-range coordinates are a caller bug.
    pub fn get_cell(&self, x: usize, y: usize) -> (c: &Cell)
        requires
            self.wf(),
            x < self@.width,
            y < self@.height,
        ensures
            *c == self.spec_cell(x as int, y as int),
    {
        proof {
            lemma_linear_index_in_bounds(
                x as int,
                y as int,
                self@.width as int,
                self@.height as int,
            );
        }
        let n = self.cells.len();
        assert(y * self.width + x < n);
        let i = y * self.width + x;
        &self.cells[i]
    }

    /// Mutably borrow the cell at `(x, y)`: the grid afterwards is the old
    /// grid with that one cell replaced by whatever the caller wrote.
    pub fn get_cell_mut(&mut self, x: usize, y: usize) -> (c: &mut Cell)
        requires
            old(self).wf(),
            x < old(self)@.width,
            y < old(self)@.height,
        ensures
            *c == old(self).spec_cell(x as int, y as int),
            final(self)@.width == old(self)@.width,
            final(self)@.height == old(self)@.height,
            final(self)@.cells == old(self)@.cells.update(
                linear_index(x as int, y as int, old(self)@.width as int),
                *final(c),
            ),
    {
        proof {
            lemma_linear_index_in_bounds(
                x as int,
                y as int,
                self@.width as int,
                self@.height as int,
            );
        }
        let n = self.cells.len();
        assert(y * self.width + x < n);
        let i = y * self.width + x;
        &mut self.cells[i]
    }

    /// Toggle the filled state of the cell at `(x, y)`; a cell that becomes
    /// filled is blanked. No other cell changes.
    pub fn toggle_filled(&mut self, x: usize, y: usize)
        requires
            old(self).wf(),
            x < old(self)@.width,
            y < old(self)@.height,
        ensures
            final(self).wf(),
            final(self)@.width == old(self)@.width,
            final(self)@.height == old(self)@.height,
            final(self)@.cells == old(self)@.cells.update(
                linear_index(x as int, y as int, old(self)@.width as int),
                spec_toggle(old(self).spec_cell(x as int, y as int)),
            ),
    {
        proof {
            lemma_linear_index_in_bounds(
                x as int,
                y as int,
                self@.width as int,
                self@.height as int,
            );
        }
        let cell = self.get_cell_mut(x, y);
        cell.toggle_filled();
    }
}

} // verus!
