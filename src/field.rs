use vstd::prelude::*;
use crate::grid::{MAX_MAGNITUDE, cells_in_range, valid_cells};

verus! {

/// The sum of the `n` cells at `centre + k * step` for `k` in `1..=n`.
pub open spec fn ray_sum(cells: Seq<Option<i64>>, centre: int, step: int, n: nat) -> int
    decreases n,
{
    if n == 0 { 0 } else { ray_sum(cells, centre, step, (n - 1) as nat) + cells[centre + n * step]->0 }
}

/// The `n` cells at `centre + k * step` for `k` in `1..=n` all hold data.
pub open spec fn ray_present(cells: Seq<Option<i64>>, centre: int, step: int, n: nat) -> bool {
    forall|k: int| 1 <= k <= n ==> (#[trigger] cells[centre + k * step]) is Some
}

/// Cell `(x, y)` is at least `h` cells away from every border.
pub open spec fn in_window_reach(width: u32, height: u32, h: int, x: int, y: int) -> bool {
    h <= x < width - h && h <= y < height - h
}

/// What the gradient field holds at cell `i` for half-window `h`: the zero
/// vector near the border; `None` where a cell of the window is missing;
/// otherwise `h` times the gradient, as (left sum - right sum, upper sum - lower sum).
pub open spec fn gradient_rule(cells: Seq<Option<i64>>, width: u32, height: u32, h: nat, i: int, g: Option<(i128, i128)>) -> bool {
    let x = i % width as int;
    let y = i / width as int;
    let w = width as int;
    if !in_window_reach(width, height, h as int, x, y) {
        g == Some((0i128, 0i128))
    } else if ray_present(cells, i, -1, h) && ray_present(cells, i, 1, h) && ray_present(cells, i, -w, h)
        && ray_present(cells, i, w, h) {
        g == Some((
            (ray_sum(cells, i, -1, h) - ray_sum(cells, i, 1, h)) as i128,
            (ray_sum(cells, i, -w, h) - ray_sum(cells, i, w, h)) as i128,
        ))
    } else {
        g is None
    }
}

/// The sum of a ray of cells, or `None` where one of them is missing.
fn ray(cells: &Vec<Option<i64>>, centre: usize, stride: usize, forward: bool, n: usize) -> (r: Option<i128>)
    requires
        cells_in_range(cells@),
        n <= u32::MAX,
        forward ==> centre + n * stride < cells@.len(),
        !forward ==> n * stride <= centre < cells@.len(),
    ensures
        r is Some <==> ray_present(cells@, centre as int, if forward { stride as int } else { -stride }, n as nat),
        r matches Some(v) ==> v == ray_sum(cells@, centre as int, if forward { stride as int } else { -stride }, n as nat),
        r matches Some(v) ==> -(n * MAX_MAGNITUDE) <= v <= n * MAX_MAGNITUDE,
{
    let ghost step: int = if forward { stride as int } else { -stride };
    let len = cells.len();
    let mut sum: i128 = 0;
    let mut pos: usize = centre;
    let mut k: usize = 0;
    while k < n
        invariant
            k <= n <= u32::MAX,
            len == cells@.len(),
            cells_in_range(cells@),
            step == (if forward { stride as int } else { -stride }),
            forward ==> centre + n * stride < cells@.len(),
            !forward ==> n * stride <= centre < cells@.len(),
            pos == centre + k * step,
            ray_present(cells@, centre as int, step, k as nat),
            sum == ray_sum(cells@, centre as int, step, k as nat),
            -(k * MAX_MAGNITUDE) <= sum <= k * MAX_MAGNITUDE,
        decreases n - k,
    {
        proof {
            assert((k + 1) * step == k * step + step) by (nonlinear_arith);
            assert((k + 1) * stride <= n * stride) by (nonlinear_arith) requires k + 1 <= n;
            assert((k + 1) * MAX_MAGNITUDE == k * MAX_MAGNITUDE + MAX_MAGNITUDE) by (nonlinear_arith);
            assert((k + 1) * MAX_MAGNITUDE <= 0x1_0000_0000 * MAX_MAGNITUDE) by (nonlinear_arith)
                requires k + 1 <= 0x1_0000_0000;
        }
        if forward {
            assert(centre + (k + 1) * stride < len);
            assert((k + 1) * stride == k * stride + stride) by (nonlinear_arith);
            assert(k * step == k * stride);
            pos = pos + stride;
        } else {
            assert((k + 1) * stride <= centre);
            assert((k + 1) * stride == k * stride + stride) by (nonlinear_arith);
            assert(k * step == -(k * stride)) by (nonlinear_arith) requires step == -stride;
            pos = pos - stride;
        }
        assert(pos == centre + (k + 1) * step);
        match cells[pos] {
            Some(v) => {
                sum = sum + v as i128;
            },
            None => {
                assert(!ray_present(cells@, centre as int, step, n as nat)) by {
                    assert(cells@[centre + (k + 1) * step] is None);
                }
                return None;
            },
        }
        k = k + 1;
        assert(ray_present(cells@, centre as int, step, k as nat)) by {
            assert forall|j: int| 1 <= j <= k implies (#[trigger] cells@[centre + j * step]) is Some by {
                if j < k {
                    assert(ray_present(cells@, centre as int, step, (k - 1) as nat));
                }
            }
        }
    }
    Some(sum)
}

/// Estimates the gradient of every cell over a window of `window_size` cells
/// (half-window `h = window_size / 2`): along the row, the sum of the `h`
/// cells to the left minus the sum of the `h` cells to the right; along the
/// column, the `h` cells above minus the `h` cells below. The results are `h`
/// times the gradient. Cells nearer than `h` to a border get the zero vector;
/// a window with a missing cell gives `None`.
pub fn compute_gradients(data: &Vec<Option<i64>>, width: u32, height: u32, window_size: u32) -> (r: Vec<Option<(i128, i128)>>)
    requires
        valid_cells(data@, width, height),
    ensures
        r@.len() == data@.len(),
        forall|i: int| 0 <= i < data@.len() ==> #[trigger] gradient_rule(data@, width, height, (window_size / 2) as nat, i, r@[i]),
{
    let n = data.len();
    let w = width as usize;
    let h = (window_size / 2) as usize;
    let mut out: Vec<Option<(i128, i128)>> = Vec::new();
    let mut i: usize = 0;
    while i < n
        invariant
            n == data@.len() == width as int * height as int,
            w == width,
            h == window_size / 2,
            i <= n,
            out@.len() == i,
            valid_cells(data@, width, height),
            forall|j: int| 0 <= j < i ==> #[trigger] gradient_rule(data@, width, height, h as nat, j, out@[j]),
        decreases n - i,
    {
        proof {
            assert(width > 0) by (nonlinear_arith) requires i < n, n == width as int * height as int;
        }
        let x = i % w;
        let y = i / w;
        proof {
            vstd::arithmetic::div_mod::lemma_fundamental_div_mod(i as int, width as int);
            assert(width as int * y as int == y as int * width as int) by (nonlinear_arith);
            assert(y < height) by (nonlinear_arith)
                requires i as int == y as int * width as int + x as int, 0 <= x < width, (i as int) < width as int * height as int;
        }
        let g = if x >= h && w - x > h && y >= h && height as usize - y > h {
            proof {
                assert(h * w <= i) by (nonlinear_arith) requires h <= y, i as int == y * w + x, x >= 0;
                assert(i + h * w < n) by (nonlinear_arith)
                    requires y + h < height, i as int == y * w + x, x < w, n == w * height;
                assert(i + h < n) by (nonlinear_arith)
                    requires y < height, i as int == y * w + x, x + h < w, n == w * height;
                assert(h * 1 == h);
            }
            let left = ray(data, i, 1, false, h);
            let right = ray(data, i, 1, true, h);
            let up = ray(data, i, w, false, h);
            let down = ray(data, i, w, true, h);
            match (left, right, up, down) {
                (Some(a), Some(b), Some(c), Some(d)) => {
                    proof {
                        assert(h * MAX_MAGNITUDE <= 0x1_0000_0000 * MAX_MAGNITUDE) by (nonlinear_arith)
                            requires h <= 0x1_0000_0000;
                    }
                    Some((a - b, c - d))
                },
                _ => None,
            }
        } else {
            Some((0, 0))
        };
        out.push(g);
        i = i + 1;
    }
    out
}


/// One arrow of the vector-field overlay: its anchor cell and its direction
/// (the gradient vector, scaled as `compute_gradients` gives it).
#[derive(Debug, Clone, Copy, PartialEq, Eq, Structural)]
pub struct Arrow {
    pub x: u32,
    pub y: u32,
    pub dx: i128,
    pub dy: i128,
}

/// Cell `i` lies on the sampling lattice of spacing `step` and holds a known,
/// nonzero vector.
pub open spec fn is_arrow_cell(g: Seq<Option<(i128, i128)>>, width: u32, step: u32, i: int) -> bool {
    &&& (i % width as int) % step as int == 0
    &&& (i / width as int) % step as int == 0
    &&& g[i] matches Some((dx, dy)) && (dx != 0 || dy != 0)
}

/// The arrow anchored at cell `i`.
pub open spec fn arrow_at(g: Seq<Option<(i128, i128)>>, width: u32, i: int) -> Arrow {
    Arrow { x: (i % width as int) as u32, y: (i / width as int) as u32, dx: (g[i]->0).0, dy: (g[i]->0).1 }
}

/// The arrows of the first `n` cells, in row-major order.
pub open spec fn arrows_upto(g: Seq<Option<(i128, i128)>>, width: u32, step: u32, n: nat) -> Seq<Arrow>
    decreases n,
{
    if n == 0 {
        seq![]
    } else {
        let prev = arrows_upto(g, width, step, (n - 1) as nat);
        if is_arrow_cell(g, width, step, n - 1) { prev.push(arrow_at(g, width, n - 1)) } else { prev }
    }
}

/// The arrows to draw over a gradient field: one at every cell whose column
/// and row are multiples of `step` and whose vector is known and nonzero, in
/// row-major order. Zero and unknown vectors draw nothing.
pub fn vector_field_arrows(gradients: &Vec<Option<(i128, i128)>>, width: u32, height: u32, step: u32) -> (r: Vec<Arrow>)
    requires
        step > 0,
        gradients@.len() == width as int * height as int,
    ensures
        r@ == arrows_upto(gradients@, width, step, gradients@.len() as nat),
{
    let n = gradients.len();
    let w = width as usize;
    let st = step as usize;
    let mut out: Vec<Arrow> = Vec::new();
    let mut i: usize = 0;
    while i < n
        invariant
            n == gradients@.len() == width as int * height as int,
            w == width,
            st == step > 0,
            i <= n,
            out@ == arrows_upto(gradients@, width, step, i as nat),
        decreases n - i,
    {
        proof {
            assert(width > 0) by (nonlinear_arith) requires i < n, n == width as int * height as int;
            assert(i as int / width as int <= i as int) by (nonlinear_arith) requires width > 0, i >= 0;
        }
        let x = i % w;
        let y = i / w;
        if x % st == 0 && y % st == 0 {
            if let Some((dx, dy)) = gradients[i] {
                if dx != 0 || dy != 0 {
                    out.push(Arrow { x: x as u32, y: y as u32, dx, dy });
                }
            }
        }
        i = i + 1;
    }
    out
}

} // verus!
