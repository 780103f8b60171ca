use vstd::prelude::*;
use crate::grid::{GridError, MAX_MAGNITUDE, cells_in_range, in_range, valid_cells};
use crate::raster::{GrayRaster, Rgba, RgbaRaster};

verus! {

/// The least present value of `cells`, if any.
pub open spec fn min_present(cells: Seq<Option<i64>>) -> Option<int>
    decreases cells.len(),
{
    if cells.len() == 0 {
        None
    } else {
        let m = min_present(cells.drop_last());
        match cells.last() {
            None => m,
            Some(v) => match m {
                None => Some(v as int),
                Some(x) => Some(if v < x { v as int } else { x }),
            },
        }
    }
}

/// The greatest present value of `cells`, if any.
pub open spec fn max_present(cells: Seq<Option<i64>>) -> Option<int>
    decreases cells.len(),
{
    if cells.len() == 0 {
        None
    } else {
        let m = max_present(cells.drop_last());
        match cells.last() {
            None => m,
            Some(v) => match m {
                None => Some(v as int),
                Some(x) => Some(if v > x { v as int } else { x }),
            },
        }
    }
}

/// The range that normalisation maps onto `[0, 1]`; `(0, 0)` where no cell is present.
pub open spec fn range_lo(cells: Seq<Option<i64>>) -> int {
    match min_present(cells) { Some(m) => m, None => 0 }
}

pub open spec fn range_hi(cells: Seq<Option<i64>>) -> int {
    match max_present(cells) { Some(m) => m, None => 0 }
}

/// The normalised value of `v` as a fraction `(num, den)`: `(v - lo) / (hi - lo)`,
/// or `0 / 1` for a missing value or an empty range.
pub open spec fn norm_fraction(v: Option<i64>, lo: int, hi: int) -> (int, int) {
    match v {
        Some(x) => if hi > lo { (x - lo, hi - lo) } else { (0, 1) },
        None => (0, 1),
    }
}

/// The grey level of `v`: the normalised value times 255, rounded down.
pub open spec fn gray_level(v: Option<i64>, lo: int, hi: int) -> int {
    let (n, d) = norm_fraction(v, lo, hi);
    (255 * n) / d
}

/// The grey level of cell `i` of `cells` under the cells' own range.
pub open spec fn gray_pixel(cells: Seq<Option<i64>>, i: int) -> int {
    gray_level(cells[i], range_lo(cells), range_hi(cells))
}

/// The normalised fraction of cell `i` of `cells` under the cells' own range.
pub open spec fn cell_fraction(cells: Seq<Option<i64>>, i: int) -> (int, int) {
    norm_fraction(cells[i], range_lo(cells), range_hi(cells))
}

/// `min_present` and `max_present` bound every present value, and are present.
pub proof fn lemma_present_bounds(cells: Seq<Option<i64>>)
    ensures
        min_present(cells) is None <==> max_present(cells) is None,
        min_present(cells) is None <==> forall|i: int| 0 <= i < cells.len() ==> (#[trigger] cells[i]) is None,
        forall|i: int| 0 <= i < cells.len() && (#[trigger] cells[i]) is Some ==>
            min_present(cells)->0 <= cells[i]->0 <= max_present(cells)->0,
        min_present(cells) matches Some(m) ==> exists|i: int| 0 <= i < cells.len() && (#[trigger] cells[i]) is Some && cells[i]->0 == m,
        max_present(cells) matches Some(m) ==> exists|i: int| 0 <= i < cells.len() && (#[trigger] cells[i]) is Some && cells[i]->0 == m,
    decreases cells.len(),
{
    if cells.len() > 0 {
        let p = cells.drop_last();
        lemma_present_bounds(p);
        assert forall|i: int| 0 <= i < p.len() implies #[trigger] p[i] == cells[i] by {}
        let n = cells.len() - 1;
        match min_present(p) {
            Some(m) => {
                let j = choose|j: int| 0 <= j < p.len() && (#[trigger] p[j]) is Some && p[j]->0 == m;
                assert(cells[j] == p[j]);
            },
            None => {},
        }
        match max_present(p) {
            Some(m) => {
                let j = choose|j: int| 0 <= j < p.len() && (#[trigger] p[j]) is Some && p[j]->0 == m;
                assert(cells[j] == p[j]);
            },
            None => {},
        }
        assert forall|i: int| 0 <= i < cells.len() && (#[trigger] cells[i]) is Some implies
            min_present(cells)->0 <= cells[i]->0 <= max_present(cells)->0 by {
            if i < n {
                assert(p[i] == cells[i]);
            }
        }
        if cells[n] is None && min_present(p) is None {
            assert forall|i: int| 0 <= i < cells.len() implies (#[trigger] cells[i]) is None by {
                if i < n {
                    assert(p[i] == cells[i]);
                }
            }
        }
    }
}

/// The least and greatest present values of `cells`, or `EmptyRange` where
/// no cell is present.
pub fn value_range(cells: &Vec<Option<i64>>) -> (r: Result<(i64, i64), GridError>)
    ensures
        r matches Ok((lo, hi)) ==> min_present(cells@) == Some(lo as int) && max_present(cells@) == Some(hi as int),
        r matches Err(e) ==> e == GridError::EmptyRange,
        r is Err <==> forall|i: int| 0 <= i < cells@.len() ==> (#[trigger] cells@[i]) is None,
{
    let mut lo: Option<i64> = None;
    let mut hi: Option<i64> = None;
    let mut i: usize = 0;
    while i < cells.len()
        invariant
            i <= cells@.len(),
            min_present(cells@.take(i as int)) == (match lo { Some(v) => Some(v as int), None => None }),
            max_present(cells@.take(i as int)) == (match hi { Some(v) => Some(v as int), None => None }),
        decreases cells@.len() - i,
    {
        assert(cells@.take(i + 1).drop_last() =~= cells@.take(i as int));
        assert(cells@.take(i + 1).last() == cells@[i as int]);
        if let Some(v) = cells[i] {
            lo = match lo {
                None => Some(v),
                Some(x) => Some(if v < x { v } else { x }),
            };
            hi = match hi {
                None => Some(v),
                Some(x) => Some(if v > x { v } else { x }),
            };
        }
        i = i + 1;
    }
    assert(cells@.take(cells@.len() as int) =~= cells@);
    proof {
        lemma_present_bounds(cells@);
    }
    match (lo, hi) {
        (Some(a), Some(b)) => Ok((a, b)),
        _ => Err(GridError::EmptyRange),
    }
}

/// The normalised fraction of `v` under `lo..hi`, for present values within it.
fn fraction_of(v: Option<i64>, lo: i64, hi: i64) -> (r: (u64, u64))
    requires
        in_range(lo as int),
        in_range(hi as int),
        v matches Some(x) ==> lo <= x <= hi,
    ensures
        r.0 as int == norm_fraction(v, lo as int, hi as int).0,
        r.1 as int == norm_fraction(v, lo as int, hi as int).1,
        r.0 <= r.1,
        0 < r.1 <= 2 * MAX_MAGNITUDE,
{
    match v {
        Some(x) => if hi > lo { ((x - lo) as u64, (hi - lo) as u64) } else { (0, 1) },
        None => (0, 1),
    }
}

/// The range of `cells` as executable values: `(0, 0)` where none is present.
fn range_or_zero(cells: &Vec<Option<i64>>) -> (r: (i64, i64))
    requires
        cells_in_range(cells@),
    ensures
        r.0 as int == range_lo(cells@),
        r.1 as int == range_hi(cells@),
        in_range(r.0 as int),
        in_range(r.1 as int),
        forall|i: int| 0 <= i < cells@.len() && (#[trigger] cells@[i]) is Some ==> r.0 <= cells@[i]->0 <= r.1,
{
    proof {
        lemma_present_bounds(cells@);
    }
    match value_range(cells) {
        Ok((lo, hi)) => {
            proof {
                let j = choose|j: int| 0 <= j < cells@.len() && (#[trigger] cells@[j]) is Some && cells@[j]->0 == lo;
                let k = choose|k: int| 0 <= k < cells@.len() && (#[trigger] cells@[k]) is Some && cells@[k]->0 == hi;
            }
            (lo, hi)
        },
        Err(_) => (0, 0),
    }
}

/// Renders the cells as grey levels: each present value maps to
/// `floor(255 * (v - min) / (max - min))` over the present values' range,
/// a missing value or a constant grid to 0.
pub fn data_to_grayscale(data_processed: Vec<Option<i64>>, width: u32, height: u32) -> (r: GrayRaster)
    requires
        valid_cells(data_processed@, width, height),
    ensures
        r.wf(),
        r.width == width,
        r.height == height,
        forall|i: int| 0 <= i < data_processed@.len() ==> r.pixels@[i] as int == #[trigger] gray_pixel(data_processed@, i),
{
    let (lo, hi) = range_or_zero(&data_processed);
    let mut pixels: Vec<u8> = Vec::new();
    let mut i: usize = 0;
    while i < data_processed.len()
        invariant
            i <= data_processed@.len(),
            pixels@.len() == i,
            lo as int == range_lo(data_processed@),
            hi as int == range_hi(data_processed@),
            in_range(lo as int),
            in_range(hi as int),
            forall|j: int| 0 <= j < data_processed@.len() && (#[trigger] data_processed@[j]) is Some ==> lo <= data_processed@[j]->0 <= hi,
            forall|j: int| 0 <= j < i ==> pixels@[j] as int == #[trigger] gray_pixel(data_processed@, j),
        decreases data_processed@.len() - i,
    {
        let (n, d) = fraction_of(data_processed[i], lo, hi);
        proof {
            assert(255 * (n as int) <= 255 * (d as int)) by (nonlinear_arith) requires n <= d;
            assert((255 * (n as int)) / (d as int) <= 255) by (nonlinear_arith) requires n <= d, d > 0;
        }
        let level = (255 * n) / d;
        pixels.push(level as u8);
        i = i + 1;
    }
    GrayRaster { width, height, pixels }
}

/// Renders the cells through the colour ramp `gradient`, which maps a
/// normalised value given as a fraction `(num, den)` to red, green and blue;
/// alpha is always 255. A missing value or a constant grid is sent as `0 / 1`.
pub fn rgb<F: Fn(u64, u64) -> (u8, u8, u8)>(data_processed: Vec<Option<i64>>, width: u32, height: u32, gradient: F) -> (r: RgbaRaster)
    requires
        valid_cells(data_processed@, width, height),
        forall|n: u64, d: u64| n <= d && d > 0 ==> call_requires(gradient, (n, d)),
    ensures
        r.wf(),
        r.width == width,
        r.height == height,
        forall|i: int| #![trigger r.pixels@[i]] 0 <= i < data_processed@.len() ==> {
            let p = r.pixels@[i];
            &&& p.a == 255
            &&& call_ensures(gradient, (cell_fraction(data_processed@, i).0 as u64, cell_fraction(data_processed@, i).1 as u64), (p.r, p.g, p.b))
        },
{
    let (lo, hi) = range_or_zero(&data_processed);
    let mut pixels: Vec<Rgba> = Vec::new();
    let mut i: usize = 0;
    while i < data_processed.len()
        invariant
            i <= data_processed@.len(),
            pixels@.len() == i,
            lo as int == range_lo(data_processed@),
            hi as int == range_hi(data_processed@),
            in_range(lo as int),
            in_range(hi as int),
            forall|n: u64, d: u64| n <= d && d > 0 ==> call_requires(gradient, (n, d)),
            forall|j: int| 0 <= j < data_processed@.len() && (#[trigger] data_processed@[j]) is Some ==> lo <= data_processed@[j]->0 <= hi,
            forall|j: int| #![trigger pixels@[j]] 0 <= j < i ==> {
                let p = pixels@[j];
                &&& p.a == 255
                &&& call_ensures(gradient, (cell_fraction(data_processed@, j).0 as u64, cell_fraction(data_processed@, j).1 as u64), (p.r, p.g, p.b))
            },
        decreases data_processed@.len() - i,
    {
        let (n, d) = fraction_of(data_processed[i], lo, hi);
        let c = gradient(n, d);
        let (cr, cg, cb) = c;
        assert(call_ensures(gradient, (n, d), c));
        assert(c == (cr, cg, cb));
        let ghost before = pixels@;
        pixels.push(Rgba { r: cr, g: cg, b: cb, a: 255 });
        assert(cell_fraction(data_processed@, i as int) == (n as int, d as int));
        assert(forall|j: int| 0 <= j < i ==> pixels@[j] == before[j]);
        assert(cell_fraction(data_processed@, i as int).0 as u64 == n);
        assert(cell_fraction(data_processed@, i as int).1 as u64 == d);
        assert(call_ensures(gradient, (cell_fraction(data_processed@, i as int).0 as u64, cell_fraction(data_processed@, i as int).1 as u64), (pixels@[i as int].r, pixels@[i as int].g, pixels@[i as int].b)));
        i = i + 1;
    }
    RgbaRaster { width, height, pixels }
}

} // verus!
