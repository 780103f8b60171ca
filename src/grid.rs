use vstd::prelude::*;

verus! {

/// Elevations are held in fixed point: one unit of the grid's numbers is
/// `SCALE` steps of an `i64`.
pub const SCALE: i64 = 1_000_000;

/// The largest magnitude a cell value may take, in fixed-point steps.
pub const MAX_MAGNITUDE: i64 = 999_999_999_999_999;

/// Why a grid could not be read.
#[derive(Debug, Clone, Copy, PartialEq, Eq, Structural)]
pub enum GridError {
    /// A header field holds no valid number, or `ncols` / `nrows` is missing or zero.
    Parse,
    /// The number of data values differs from `ncols * nrows`.
    ShapeMismatch,
    /// No cell holds data, so no value range exists.
    EmptyRange,
}

/// A value fits the fixed-point range of a cell.
pub open spec fn in_range(v: int) -> bool {
    -MAX_MAGNITUDE <= v <= MAX_MAGNITUDE
}

/// Every present value of `cells` fits the fixed-point range.
pub open spec fn cells_in_range(cells: Seq<Option<i64>>) -> bool {
    forall|i: int| 0 <= i < cells.len() && (#[trigger] cells[i]) is Some ==> in_range(cells[i]->0 as int)
}

/// The cells of a `width` by `height` grid: row-major, each present value in range.
pub open spec fn valid_cells(cells: Seq<Option<i64>>, width: u32, height: u32) -> bool {
    &&& cells.len() == width as int * height as int
    &&& cells_in_range(cells)
}

/// A parsed elevation grid: `cells` in row-major order, `None` where the input
/// held the no-data value, values and `cell_size` in fixed point.
pub struct ElevationGrid {
    pub width: u32,
    pub height: u32,
    pub cell_size: i64,
    pub cells: Vec<Option<i64>>,
}

/// The mathematical content of a grid.
pub struct GridModel {
    pub width: nat,
    pub height: nat,
    pub cell_size: int,
    pub cells: Seq<Option<int>>,
}

/// A present value, widened to `int`.
pub open spec fn cell_value(c: Option<i64>) -> Option<int> {
    match c {
        Some(v) => Some(v as int),
        None => None,
    }
}

impl View for ElevationGrid {
    type V = GridModel;

    open spec fn view(&self) -> GridModel {
        GridModel {
            width: self.width as nat,
            height: self.height as nat,
            cell_size: self.cell_size as int,
            cells: self.cells@.map_values(|c: Option<i64>| cell_value(c)),
        }
    }
}

impl ElevationGrid {
    /// Both sides positive, one cell per position, a positive cell size, values in range.
    pub open spec fn wf(&self) -> bool {
        &&& self.width > 0
        &&& self.height > 0
        &&& 0 < self.cell_size <= MAX_MAGNITUDE
        &&& valid_cells(self.cells@, self.width, self.height)
    }
}

} // verus!
