//! The cell grid that lines are painted into.
//!
//! A buffer is a rectangle of cells addressed by absolute column and
//! row; each cell holds a symbol (one grapheme cluster) and a style.
//! The engine only ever writes cells, and only inside the viewport it
//! was given.

use vstd::prelude::*;
use vstd::string::StringExecFns;
use crate::style::Style;

verus! {

/// The mathematical content of one grid cell.
pub ghost struct CellModel {
    pub symbol: Seq<char>,
    pub style: Style,
}

/// One character cell: a symbol and its style.
pub struct Cell {
    pub symbol: String,
    pub style: Style,
}

impl View for Cell {
    type V = CellModel;

    open spec fn view(&self) -> CellModel {
        CellModel { symbol: self.symbol@, style: self.style }
    }
}

/// The cell a fresh buffer is filled with: a single space with the
/// default style.
pub open spec fn blank_cell() -> CellModel {
    CellModel { symbol: seq![' '], style: Style { fg: 0, bg: 0, modifier: 0 } }
}

/// The position of cell `(x, y)` in the row-major cell sequence of a
/// buffer of the given width.
pub open spec fn cell_index(width: int, x: int, y: int) -> int {
    y * width + x
}

/// A rectangle of cells, stored row-major.
pub struct Buffer {
    width: u16,
    height: u16,
    cells: Vec<Cell>,
}

impl View for Buffer {
    type V = Seq<CellModel>;

    closed spec fn view(&self) -> Seq<CellModel> {
        self.cells@.map_values(|c: Cell| c@)
    }
}

impl Buffer {
    pub closed spec fn wf(&self) -> bool {
        self.cells@.len() == self.width as int * self.height as int
    }

    pub closed spec fn spec_width(&self) -> u16 {
        self.width
    }

    pub closed spec fn spec_height(&self) -> u16 {
        self.height
    }

    proof fn lemma_index_in_bounds(&self, x: int, y: int)
        requires
            self.wf(),
            0 <= x < self.spec_width(),
            0 <= y < self.spec_height(),
        ensures
            0 <= cell_index(self.spec_width() as int, x, y) < self@.len(),
    {
        let w = self.spec_width() as int;
        let h = self.spec_height() as int;
        assert(y * w + x < w * h) by (nonlinear_arith)
            requires
                0 <= x < w,
                0 <= y < h,
        ;
        assert(y * w + x >= 0) by (nonlinear_arith)
            requires
                0 <= x,
                0 <= y,
                w > 0,
        ;
    }

    /// A fresh buffer of the given size, every cell blank.
    pub fn new(width: u16, height: u16) -> (b: Buffer)
        ensures
            b.wf(),
            b.spec_width() == width,
            b.spec_height() == height,
            b@.len() == width as int * height as int,
            forall|i: int| 0 <= i < b@.len() ==> b@[i] == blank_cell(),
    {
        proof {
            assert(width as int * height as int <= 65535 * 65535) by (nonlinear_arith)
                requires
                    width <= 65535,
                    height <= 65535,
            ;
            assert(width as int * height as int >= 0) by (nonlinear_arith)
                requires
                    width >= 0,
                    height >= 0,
            ;
        }
        let n: usize = (width as usize) * (height as usize);
        let mut cells: Vec<Cell> = Vec::new();
        let mut i: usize = 0;
        while i < n
            invariant
                0 <= i <= n,
                cells@.len() == i,
                forall|j: int| 0 <= j < i ==> (#[trigger] cells@[j])@ == blank_cell(),
            decreases n - i,
        {
            let c = Cell { symbol: String::from_str(" "), style: Style { fg: 0, bg: 0, modifier: 0 } };
            proof {
                reveal_strlit(" ");
                assert(c.symbol@ =~= seq![' ']);
                assert(c@ == blank_cell());
            }
            cells.push(c);
            i += 1;
        }
        let b = Buffer { width, height, cells };
        proof {
            assert(forall|j: int| 0 <= j < b@.len() ==> b@[j] == b.cells@[j]@);
        }
        b
    }

    /// Reads the cell at `(x, y)`.
    pub fn get(&self, x: u16, y: u16) -> (c: &Cell)
        requires
            self.wf(),
            x < self.spec_width(),
            y < self.spec_height(),
        ensures
            c@ == self@[cell_index(self.spec_width() as int, x as int, y as int)],
    {
        proof {
            self.lemma_index_in_bounds(x as int, y as int);
            assert((y as int) * (self.spec_width() as int) <= 65535 * 65535) by (nonlinear_arith)
                requires
                    0 <= y <= 65535,
                    0 <= self.spec_width() <= 65535,
            ;
        }
        let idx: usize = (y as usize) * (self.width as usize) + (x as usize);
        &self.cells[idx]
    }

    /// Writes symbol and style of the cell at `(x, y)`.
    pub fn set_cell(&mut self, x: u16, y: u16, symbol: &str, style: Style)
        requires
            old(self).wf(),
            x < old(self).spec_width(),
            y < old(self).spec_height(),
        ensures
            final(self).wf(),
            final(self).spec_width() == old(self).spec_width(),
            final(self).spec_height() == old(self).spec_height(),
            final(self)@ =~= old(self)@.update(
                cell_index(old(self).spec_width() as int, x as int, y as int),
                CellModel { symbol: symbol@, style },
            ),
    {
        proof {
            self.lemma_index_in_bounds(x as int, y as int);
            assert((y as int) * (self.spec_width() as int) <= 65535 * 65535) by (nonlinear_arith)
                requires
                    0 <= y <= 65535,
                    0 <= self.spec_width() <= 65535,
            ;
        }
        let idx: usize = (y as usize) * (self.width as usize) + (x as usize);
        let ghost prev = self.cells@;
        self.cells[idx] = Cell { symbol: String::from_str(symbol), style };
        proof {
            assert forall|j: int| 0 <= j < self@.len() implies self@[j] == old(self)@.update(
                cell_index(old(self).spec_width() as int, x as int, y as int),
                CellModel { symbol: symbol@, style },
            )[j] by {
                if j != idx as int {
                    assert(self.cells@[j] == prev[j]);
                }
            }
        }
    }

    /// Repaints the background attribute of the cell at `(x, y)`,
    /// leaving its symbol and other attributes unchanged.
    pub fn set_bg(&mut self, x: u16, y: u16, bg: u8)
        requires
            old(self).wf(),
            x < old(self).spec_width(),
            y < old(self).spec_height(),
        ensures
            final(self).wf(),
            final(self).spec_width() == old(self).spec_width(),
            final(self).spec_height() == old(self).spec_height(),
            final(self)@ =~= old(self)@.update(
                cell_index(old(self).spec_width() as int, x as int, y as int),
                with_bg(old(self)@[cell_index(old(self).spec_width() as int, x as int, y as int)], bg),
            ),
    {
        proof {
            self.lemma_index_in_bounds(x as int, y as int);
            assert((y as int) * (self.spec_width() as int) <= 65535 * 65535) by (nonlinear_arith)
                requires
                    0 <= y <= 65535,
                    0 <= self.spec_width() <= 65535,
            ;
        }
        let idx: usize = (y as usize) * (self.width as usize) + (x as usize);
        let ghost prev = self.cells@;
        let old_style = self.cells[idx].style;
        self.cells[idx].style = Style { fg: old_style.fg, bg, modifier: old_style.modifier };
        proof {
            assert forall|j: int| 0 <= j < self@.len() implies self@[j] == old(self)@.update(
                cell_index(old(self).spec_width() as int, x as int, y as int),
                with_bg(
                    old(self)@[cell_index(old(self).spec_width() as int, x as int, y as int)],
                    bg,
                ),
            )[j] by {
                if j != idx as int {
                    assert(self.cells@[j] == prev[j]);
                }
            }
        }
    }

    /// The width of the buffer in columns.
    pub fn width(&self) -> (w: u16)
        ensures
            w == self.spec_width(),
    {
        self.width
    }

    /// The height of the buffer in rows.
    pub fn height(&self) -> (h: u16)
        ensures
            h == self.spec_height(),
    {
        self.height
    }
}

/// The same cell with only its background attribute replaced.
pub open spec fn with_bg(c: CellModel, bg: u8) -> CellModel {
    CellModel {
        symbol: c.symbol,
        style: Style { fg: c.style.fg, bg, modifier: c.style.modifier },
    }
}

} // verus!
