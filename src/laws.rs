use vstd::prelude::*;
use crate::grid::{ElevationGrid, cell_value};
use crate::hillshade::{at, horn_dx, horn_dy, window_present};
use crate::parse::parse_grid;
use crate::raster::GrayRaster;
use crate::render::{gray_level, gray_pixel, lemma_present_bounds, max_present, min_present, range_hi, range_lo};

verus! {

/// Grey levels keep the order of values: under one range `(lo, hi)`, a
/// smaller present value never gets a brighter level than a larger one.
pub proof fn lemma_grayscale_monotone(a: i64, b: i64, lo: int, hi: int)
    requires
        a < b,
    ensures
        gray_level(Some(a), lo, hi) <= gray_level(Some(b), lo, hi),
{
    if hi > lo {
        assert(255 * (a - lo) <= 255 * (b - lo)) by (nonlinear_arith) requires a < b;
        vstd::arithmetic::div_mod::lemma_div_is_ordered(255 * (a - lo), 255 * (b - lo), hi - lo);
    }
}

/// In a grid whose present values are all equal, every cell renders to grey 0.
pub proof fn lemma_constant_grid_is_black(cells: Seq<Option<i64>>)
    requires
        forall|i: int, j: int| 0 <= i < cells.len() && 0 <= j < cells.len() && (#[trigger] cells[i]) is Some
            && (#[trigger] cells[j]) is Some ==> cells[i] == cells[j],
    ensures
        forall|i: int| 0 <= i < cells.len() ==> #[trigger] gray_pixel(cells, i) == 0,
{
    lemma_present_bounds(cells);
    match min_present(cells) {
        Some(m) => {
            let j = choose|j: int| 0 <= j < cells.len() && (#[trigger] cells[j]) is Some && cells[j]->0 == m;
            let k = choose|k: int| 0 <= k < cells.len() && (#[trigger] cells[k]) is Some && cells[k]->0 == max_present(cells)->0;
            assert(range_lo(cells) == range_hi(cells));
        },
        None => {},
    }
}

/// A cell without data renders to grey 0, wherever it stands.
pub proof fn lemma_missing_cell_is_black(cells: Seq<Option<i64>>, i: int)
    requires
        0 <= i < cells.len(),
        cells[i] is None,
    ensures
        gray_pixel(cells, i) == 0,
{
}

/// The pipeline's verified stages are fixed by their input: two grids read
/// from the same text are equal, and two grey rasters rendered from them hold
/// the same pixels.
pub proof fn lemma_pipeline_repeatable(s: Seq<u8>, g1: ElevationGrid, g2: ElevationGrid, r1: GrayRaster, r2: GrayRaster)
    requires
        parse_grid(s) == Ok::<_, crate::grid::GridError>(g1@),
        parse_grid(s) == Ok::<_, crate::grid::GridError>(g2@),
        r1.pixels@.len() == g1.cells@.len(),
        r2.pixels@.len() == g2.cells@.len(),
        forall|i: int| 0 <= i < g1.cells@.len() ==> r1.pixels@[i] as int == #[trigger] gray_pixel(g1.cells@, i),
        forall|i: int| 0 <= i < g2.cells@.len() ==> r2.pixels@[i] as int == #[trigger] gray_pixel(g2.cells@, i),
    ensures
        g1.width == g2.width,
        g1.height == g2.height,
        g1.cell_size == g2.cell_size,
        g1.cells@ == g2.cells@,
        r1.pixels@ == r2.pixels@,
{
    assert(g1@ == g2@);
    assert(g1.cells@.len() == g1@.cells.len());
    assert forall|i: int| 0 <= i < g1.cells@.len() implies g1.cells@[i] == g2.cells@[i] by {
        assert(cell_value(g1.cells@[i]) == g1@.cells[i]);
        assert(cell_value(g2.cells@[i]) == g2@.cells[i]);
    }
    assert(g1.cells@ =~= g2.cells@);
    assert forall|i: int| 0 <= i < r1.pixels@.len() implies r1.pixels@[i] == r2.pixels@[i] by {
        assert(gray_pixel(g1.cells@, i) == gray_pixel(g2.cells@, i));
    }
    assert(r1.pixels@ =~= r2.pixels@);
}

/// A level window has no slope: where the nine cells around `(x, y)` all hold
/// one value, both Horn differences are zero, so the shade comes from the
/// light's altitude alone.
pub proof fn lemma_flat_window_has_no_slope(cells: Seq<Option<i64>>, width: u32, x: int, y: int, v: i64)
    requires
        forall|dx: int, dy: int| -1 <= dx <= 1 && -1 <= dy <= 1 ==> #[trigger] at(cells, width, x + dx, y + dy) == Some(v),
    ensures
        window_present(cells, width, x, y),
        horn_dx(cells, width, x, y) == 0,
        horn_dy(cells, width, x, y) == 0,
{
    assert(at(cells, width, x + (-1), y + (-1)) == Some(v));
    assert(at(cells, width, x + 0, y + (-1)) == Some(v));
    assert(at(cells, width, x + 1, y + (-1)) == Some(v));
    assert(at(cells, width, x + (-1), y + 0) == Some(v));
    assert(at(cells, width, x + 1, y + 0) == Some(v));
    assert(at(cells, width, x + (-1), y + 1) == Some(v));
    assert(at(cells, width, x + 0, y + 1) == Some(v));
    assert(at(cells, width, x + 1, y + 1) == Some(v));
}

} // verus!
