use vstd::prelude::*;
use crate::grid::{MAX_MAGNITUDE, valid_cells};
use crate::raster::{GrayRaster, Rgba, RgbaRaster, transparent};

verus! {

/// The cell in column `x` and row `y` lies on the outer ring of the grid.
pub open spec fn is_border(width: u32, height: u32, x: int, y: int) -> bool {
    x == 0 || y == 0 || x == width - 1 || y == height - 1
}

/// The cell in column `x` and row `y`.
pub open spec fn at(cells: Seq<Option<i64>>, width: u32, x: int, y: int) -> Option<i64> {
    cells[y * width + x]
}

/// The value in column `x` and row `y`, read as a number.
pub open spec fn z(cells: Seq<Option<i64>>, width: u32, x: int, y: int) -> int {
    at(cells, width, x, y)->0 as int
}

/// All nine cells of the 3x3 window centred on `(x, y)` hold data.
pub open spec fn window_present(cells: Seq<Option<i64>>, width: u32, x: int, y: int) -> bool {
    forall|dx: int, dy: int| -1 <= dx <= 1 && -1 <= dy <= 1 ==> (#[trigger] at(cells, width, x + dx, y + dy)) is Some
}

/// Horn's east-west difference at `(x, y)`: `8 * cell_size * dz/dx`.
pub open spec fn horn_dx(cells: Seq<Option<i64>>, width: u32, x: int, y: int) -> int {
    (z(cells, width, x + 1, y - 1) + 2 * z(cells, width, x + 1, y) + z(cells, width, x + 1, y + 1))
        - (z(cells, width, x - 1, y - 1) + 2 * z(cells, width, x - 1, y) + z(cells, width, x - 1, y + 1))
}

/// Horn's north-south difference at `(x, y)`: `8 * cell_size * dz/dy`.
pub open spec fn horn_dy(cells: Seq<Option<i64>>, width: u32, x: int, y: int) -> int {
    (z(cells, width, x - 1, y + 1) + 2 * z(cells, width, x, y + 1) + z(cells, width, x + 1, y + 1))
        - (z(cells, width, x - 1, y - 1) + 2 * z(cells, width, x, y - 1) + z(cells, width, x + 1, y - 1))
}

/// The colour `c` darkened by the shade `s`: each channel times `s / 255`,
/// rounded down, fully opaque.
pub open spec fn shaded(c: Rgba, s: u8) -> Rgba {
    Rgba {
        r: ((c.r as int * s as int) / 255) as u8,
        g: ((c.g as int * s as int) / 255) as u8,
        b: ((c.b as int * s as int) / 255) as u8,
        a: 255,
    }
}

/// What the hillshade engine puts at cell `i`: nothing (0 and transparent) on
/// the border; the shade that `shade` gives for the Horn differences where the
/// window is complete; black (0, opaque colour) where a window cell is missing.
pub open spec fn shade_rule<F: Fn(i64, i64, i64) -> u8>(
    cells: Seq<Option<i64>>,
    colored: Seq<Rgba>,
    width: u32,
    height: u32,
    cellsize: i64,
    shade: F,
    i: int,
    gray: u8,
    color: Rgba,
) -> bool {
    let x = i % width as int;
    let y = i / width as int;
    if is_border(width, height, x, y) {
        gray == 0 && color == transparent()
    } else if window_present(cells, width, x, y) {
        &&& call_ensures(shade, (horn_dx(cells, width, x, y) as i64, horn_dy(cells, width, x, y) as i64, (8 * cellsize) as i64), gray)
        &&& color == shaded(colored[i], gray)
    } else {
        gray == 0 && color == shaded(colored[i], 0)
    }
}

proof fn lemma_neighbours(w: int, i: int, x: int, y: int)
    requires
        i == y * w + x,
    ensures
        (y - 1) * w + (x - 1) == i - w - 1,
        (y - 1) * w + x == i - w,
        (y - 1) * w + (x + 1) == i - w + 1,
        y * w + (x - 1) == i - 1,
        y * w + (x + 1) == i + 1,
        (y + 1) * w + (x - 1) == i + w - 1,
        (y + 1) * w + x == i + w,
        (y + 1) * w + (x + 1) == i + w + 1,
{
    assert((y - 1) * w == y * w - w) by (nonlinear_arith);
    assert((y + 1) * w == y * w + w) by (nonlinear_arith);
}

/// The Horn differences at the interior cell `i`, or `None` where a cell of
/// its window is missing.
fn horn_at(cells: &Vec<Option<i64>>, width: u32, height: u32, i: usize) -> (r: Option<(i64, i64)>)
    requires
        valid_cells(cells@, width, height),
        0 <= i < cells@.len(),
        !is_border(width, height, i as int % width as int, i as int / width as int),
        width > 0,
    ensures
        r is Some <==> window_present(cells@, width, i as int % width as int, i as int / width as int),
        r matches Some((dx, dy)) ==> dx == horn_dx(cells@, width, i as int % width as int, i as int / width as int)
            && dy == horn_dy(cells@, width, i as int % width as int, i as int / width as int),
{
    let ghost x = i as int % width as int;
    let ghost y = i as int / width as int;
    let w = width as usize;
    let n = cells.len();
    proof {
        vstd::arithmetic::div_mod::lemma_fundamental_div_mod(i as int, width as int);
        lemma_neighbours(width as int, i as int, x, y);
        assert(0 <= x < width);
        assert(y >= 0) by (nonlinear_arith) requires i == y * width + x, x < width, i >= 0;
        assert(y < height) by (nonlinear_arith)
            requires i == y * width + x, 0 <= x < width, i < width * height, y >= 0;
        assert(y < height - 1);
        assert((y + 1) * width + (x + 1) < width * height) by (nonlinear_arith)
            requires y + 1 < height, x + 1 < width, 0 <= x;
        assert(i >= w + 1) by (nonlinear_arith)
            requires i == y * width + x, y >= 1, x >= 1, w == width;
        assert(i + w + 1 < n);
    }
    let c1 = cells[i - w - 1];
    let c2 = cells[i - w];
    let c3 = cells[i - w + 1];
    let c4 = cells[i - 1];
    let c5 = cells[i];
    let c6 = cells[i + 1];
    let c7 = cells[i + w - 1];
    let c8 = cells[i + w];
    let c9 = cells[i + w + 1];
    assert(at(cells@, width, x, y) == cells@[i as int]);
    match (c1, c2, c3, c4, c5, c6, c7, c8, c9) {
        (Some(z1), Some(z2), Some(z3), Some(z4), Some(_), Some(z6), Some(z7), Some(z8), Some(z9)) => {
            assert(window_present(cells@, width, x, y)) by {
                assert forall|dx: int, dy: int| -1 <= dx <= 1 && -1 <= dy <= 1 implies (#[trigger] at(cells@, width, x + dx, y + dy)) is Some by {
                    if dy == -1 {
                        assert((y + dy) * width == y * width - width) by (nonlinear_arith) requires dy == -1;
                    } else if dy == 1 {
                        assert((y + dy) * width == y * width + width) by (nonlinear_arith) requires dy == 1;
                    }
                }
            }
            let dx = (z3 + 2 * z6 + z9) - (z1 + 2 * z4 + z7);
            let dy = (z7 + 2 * z8 + z9) - (z1 + 2 * z2 + z3);
            Some((dx, dy))
        },
        _ => {
            assert(!window_present(cells@, width, x, y)) by {
                if window_present(cells@, width, x, y) {
                    assert(at(cells@, width, x + (-1), y + (-1)) is Some);
                    assert(at(cells@, width, x + (0), y + (-1)) is Some);
                    assert(at(cells@, width, x + (1), y + (-1)) is Some);
                    assert(at(cells@, width, x + (-1), y + (0)) is Some);
                    assert(at(cells@, width, x + (0), y + (0)) is Some);
                    assert(at(cells@, width, x + (1), y + (0)) is Some);
                    assert(at(cells@, width, x + (-1), y + (1)) is Some);
                    assert(at(cells@, width, x + (0), y + (1)) is Some);
                    assert(at(cells@, width, x + (1), y + (1)) is Some);
                }
            }
            None
        },
    }
}


/// `c` darkened by the shade `s`.
fn shade_color(c: Rgba, s: u8) -> (r: Rgba)
    ensures
        r == shaded(c, s),
{
    proof {
        assert(c.r as int * s as int <= 255 * 255) by (nonlinear_arith) requires c.r <= 255, s <= 255;
        assert(c.g as int * s as int <= 255 * 255) by (nonlinear_arith) requires c.g <= 255, s <= 255;
        assert(c.b as int * s as int <= 255 * 255) by (nonlinear_arith) requires c.b <= 255, s <= 255;
    }
    Rgba {
        r: ((c.r as u32 * s as u32) / 255) as u8,
        g: ((c.g as u32 * s as u32) / 255) as u8,
        b: ((c.b as u32 * s as u32) / 255) as u8,
        a: 255,
    }
}

/// Shades the grid with Horn's method. For every interior cell whose 3x3
/// window holds data, `shade(dx, dy, den)` receives the Horn differences, so
/// that `dz/dx = dx / den` and `dz/dy = dy / den`, and returns the clamped
/// illumination; the grey raster takes it and the colour raster takes
/// `colored_image` darkened by it. A window with a missing cell shades to 0.
/// Border cells are not written: they stay 0 and transparent.
pub fn hill_shading<F: Fn(i64, i64, i64) -> u8>(
    data: &Vec<Option<i64>>,
    colored_image: RgbaRaster,
    width: u32,
    height: u32,
    cellsize: i64,
    shade: F,
) -> (r: (GrayRaster, RgbaRaster))
    requires
        width > 0,
        height > 0,
        valid_cells(data@, width, height),
        colored_image.wf(),
        colored_image.width == width,
        colored_image.height == height,
        0 < cellsize <= MAX_MAGNITUDE,
        forall|a: i64, b: i64, c: i64| call_requires(shade, (a, b, c)),
    ensures
        r.0.wf(),
        r.1.wf(),
        r.0.width == width,
        r.0.height == height,
        r.1.width == width,
        r.1.height == height,
        forall|i: int| 0 <= i < data@.len() ==>
            #[trigger] shade_rule(data@, colored_image.pixels@, width, height, cellsize, shade, i, r.0.pixels@[i], r.1.pixels@[i]),
{
    let n = data.len();
    let w = width as usize;
    let den = 8 * cellsize;
    let mut gray: Vec<u8> = Vec::new();
    let mut color: Vec<Rgba> = Vec::new();
    let mut i: usize = 0;
    while i < n
        invariant
            n == data@.len() == colored_image.pixels@.len(),
            w == width > 0,
            height > 0,
            den == 8 * cellsize,
            i <= n,
            gray@.len() == i,
            color@.len() == i,
            valid_cells(data@, width, height),
            forall|a: i64, b: i64, c: i64| call_requires(shade, (a, b, c)),
            forall|j: int| 0 <= j < i ==>
                #[trigger] shade_rule(data@, colored_image.pixels@, width, height, cellsize, shade, j, gray@[j], color@[j]),
        decreases n - i,
    {
        let x = i % w;
        let y = i / w;
        proof {
            vstd::arithmetic::div_mod::lemma_fundamental_div_mod(i as int, width as int);
            assert(x as int == i as int % width as int);
            assert(y as int == i as int / width as int);
            assert(width as int * (i as int / width as int) == (i as int / width as int) * width as int) by (nonlinear_arith);
            assert(i as int == y as int * width as int + x as int);
            assert((i as int) < width as int * height as int);
            assert(y < height) by (nonlinear_arith)
                requires i as int == y as int * width as int + x as int, 0 <= x < width, (i as int) < width as int * height as int;
        }
        let ghost gb = gray@;
        let ghost cb = color@;
        if x == 0 || y == 0 || x == w - 1 || y + 1 == height as usize {
            gray.push(0);
            color.push(Rgba { r: 0, g: 0, b: 0, a: 0 });
        } else {
            let c = colored_image.pixels[i];
            match horn_at(data, width, height, i) {
                Some((dx, dy)) => {
                    let s = shade(dx, dy, den);
                    gray.push(s);
                    color.push(shade_color(c, s));
                },
                None => {
                    gray.push(0);
                    color.push(shade_color(c, 0));
                },
            }
        }
        assert(forall|j: int| 0 <= j < i ==> gray@[j] == gb[j] && color@[j] == cb[j]);
        assert(shade_rule(data@, colored_image.pixels@, width, height, cellsize, shade, i as int, gray@[i as int], color@[i as int]));
        i = i + 1;
    }
    (GrayRaster { width, height, pixels: gray }, RgbaRaster { width, height, pixels: color })
}

} // verus!
