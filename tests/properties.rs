use asc_relief::{
    asc_to_image, compute_gradients, data_to_grayscale, hill_shading, rgb, value_range, vector_field_arrows, Arrow,
    GridError, Rgba, RgbaRaster, SCALE,
};
use std::cell::RefCell;

fn header(cols: &str, rows: &str) -> String {
    format!("ncols {}\nnrows {}\nxllcorner 0\nyllcorner 0\ncellsize 1\nnodata_value -9999\n", cols, rows)
}

fn fixed(values: &[i64]) -> Vec<Option<i64>> {
    values.iter().map(|v| Some(v * SCALE)).collect()
}

#[test]
fn parse_scenario_five_by_two() {
    let text = "ncols 5\nnrows 2\ncellsize 1\nnodata_value -9999\n\n\n1 2 3 4 5\n6 7 8 9 10\n";
    let grid = asc_to_image(text.as_bytes()).unwrap();
    assert_eq!((grid.width, grid.height, grid.cell_size), (5, 2, SCALE));
    assert_eq!(grid.cells, fixed(&[1, 2, 3, 4, 5, 6, 7, 8, 9, 10]));
}

#[test]
fn parse_scenario_nodata_becomes_none() {
    let text = header("3", "2") + "1 2 -9999\n-9999 5 6\n";
    let grid = asc_to_image(text.as_bytes()).unwrap();
    assert_eq!(grid.cells, vec![Some(SCALE), Some(2 * SCALE), None, None, Some(5 * SCALE), Some(6 * SCALE)]);
}

#[test]
fn parse_decimals_in_fixed_point() {
    let text = header("4", "1") + "1.5 -0.25 .5 3.14159265\n";
    let grid = asc_to_image(text.as_bytes()).unwrap();
    assert_eq!(grid.cells, vec![Some(1_500_000), Some(-250_000), Some(500_000), Some(3_141_592)]);
}

#[test]
fn parse_cell_size_and_default() {
    let text = "ncols 1\nnrows 1\ncellsize 2.5\n\n\n\n7\n";
    assert_eq!(asc_to_image(text.as_bytes()).unwrap().cell_size, 2_500_000);
    let text = "ncols 1\nnrows 1\n\n\n\n\n7\n";
    let grid = asc_to_image(text.as_bytes()).unwrap();
    assert_eq!(grid.cell_size, SCALE);
    assert_eq!(grid.cells, vec![Some(7 * SCALE)]);
}

#[test]
fn parse_without_nodata_keeps_every_value() {
    let text = "ncols 2\nnrows 1\n\n\n\n\n-9999 4\n";
    assert_eq!(asc_to_image(text.as_bytes()).unwrap().cells, vec![Some(-9999 * SCALE), Some(4 * SCALE)]);
}

#[test]
fn parse_skips_words_that_are_no_number() {
    let text = header("2", "1") + "1 abc 2\n";
    assert_eq!(asc_to_image(text.as_bytes()).unwrap().cells, fixed(&[1, 2]));
}

#[test]
fn parse_last_key_wins_and_other_lines_are_ignored() {
    let text = "ncols 9\nncols 2\nnrows 1 extra\nnrows 1\nNCOLS 7\nfoo bar\n3 4\n";
    let grid = asc_to_image(text.as_bytes()).unwrap();
    assert_eq!((grid.width, grid.height), (2, 1));
    assert_eq!(grid.cells, fixed(&[3, 4]));
}

#[test]
fn parse_counts_accept_plus_sign() {
    let text = header("+2", "1") + "3 4\n";
    assert_eq!(asc_to_image(text.as_bytes()).unwrap().width, 2);
}

#[test]
fn parse_shape_mismatch() {
    let text = header("3", "2") + "1 2 3\n4 5\n";
    assert_eq!(asc_to_image(text.as_bytes()).err(), Some(GridError::ShapeMismatch));
    let text = header("2", "1") + "1 2 3\n";
    assert_eq!(asc_to_image(text.as_bytes()).err(), Some(GridError::ShapeMismatch));
}

#[test]
fn parse_errors_on_header() {
    let bad = [
        "ncols 2\n\n\n\n\n\n1 2\n",
        "nrows 1\n\n\n\n\n\n1 2\n",
        "ncols 0\nnrows 1\n\n\n\n\n",
        "ncols -2\nnrows 1\n\n\n\n\n1 2\n",
        "ncols 4294967296\nnrows 1\n\n\n\n\n1\n",
        "ncols 1\nnrows 1\ncellsize -1\n\n\n\n1\n",
        "ncols 1\nnrows 1\ncellsize 0\n\n\n\n1\n",
        "ncols 1\nnrows 1\nnodata_value x\n\n\n\n1\n",
    ];
    for text in bad.iter() {
        assert_eq!(asc_to_image(text.as_bytes()).err(), Some(GridError::Parse), "{:?}", text);
    }
}

#[test]
fn parse_is_repeatable() {
    let text = header("3", "2") + "1 2 -9999\n-9999 5 6.75\n";
    let a = asc_to_image(text.as_bytes()).unwrap();
    let b = asc_to_image(text.as_bytes()).unwrap();
    assert_eq!((a.width, a.height, a.cell_size, &a.cells), (b.width, b.height, b.cell_size, &b.cells));
    let ga = data_to_grayscale(a.cells.clone(), a.width, a.height);
    let gb = data_to_grayscale(b.cells.clone(), b.width, b.height);
    assert_eq!(ga.pixels, gb.pixels);
    assert_eq!(compute_gradients(&a.cells, 3, 2, 3), compute_gradients(&b.cells, 3, 2, 3));
}

#[test]
fn range_of_present_values() {
    assert_eq!(value_range(&vec![Some(3), None, Some(-2)]), Ok((-2, 3)));
    assert_eq!(value_range(&vec![None, None]), Err(GridError::EmptyRange));
    assert_eq!(value_range(&vec![]), Err(GridError::EmptyRange));
}

#[test]
fn grayscale_levels_and_dimensions() {
    let image = data_to_grayscale(fixed(&[0, 1, 2]), 3, 1);
    assert_eq!((image.width(), image.height()), (3, 1));
    assert_eq!(image.pixels, vec![0, 127, 255]);
    let image = data_to_grayscale(fixed(&[10, 20, 30, 40]), 2, 2);
    assert_eq!((image.width(), image.height()), (2, 2));
    assert_eq!(image.pixels, vec![0, 85, 170, 255]);
}

#[test]
fn grayscale_is_monotone() {
    let image = data_to_grayscale(vec![Some(7), Some(-3), Some(100), Some(8), Some(99)], 5, 1);
    assert_eq!(image.pixels, vec![24, 0, 255, 27, 252]);
}

#[test]
fn grayscale_constant_grid_with_gaps_is_black() {
    let image = data_to_grayscale(vec![Some(4), None, Some(4), Some(4)], 2, 2);
    assert_eq!(image.pixels, vec![0, 0, 0, 0]);
    let image = data_to_grayscale(vec![None, None], 2, 1);
    assert_eq!(image.pixels, vec![0, 0]);
}

#[test]
fn grayscale_missing_cell_is_black_anywhere() {
    let image = data_to_grayscale(vec![Some(0), Some(10), None, Some(5)], 2, 2);
    assert_eq!(image.get_pixel(0, 1), 0);
    assert_eq!(image.get_pixel(1, 0), 255);
    assert_eq!(image.get_pixel(1, 1), 127);
}

#[test]
fn rgb_hands_fractions_to_the_ramp() {
    let seen = RefCell::new(Vec::new());
    let ramp = |n: u64, d: u64| {
        seen.borrow_mut().push((n, d));
        ((n * 255 / d) as u8, 9, 200)
    };
    let image = rgb(vec![Some(0), Some(SCALE), None, Some(2 * SCALE)], 2, 2, ramp);
    assert_eq!(*seen.borrow(), vec![(0, 2 * SCALE as u64), (SCALE as u64, 2 * SCALE as u64), (0, 1), (2 * SCALE as u64, 2 * SCALE as u64)]);
    assert_eq!((image.width(), image.height()), (2, 2));
    assert_eq!(image.get_pixel(1, 0), Rgba { r: 127, g: 9, b: 200, a: 255 });
    assert_eq!(image.get_pixel(0, 1), Rgba { r: 0, g: 9, b: 200, a: 255 });
}

#[test]
fn rgb_constant_grid_sends_zero() {
    let image = rgb(fixed(&[3, 3]), 2, 1, |n: u64, d: u64| (n as u8, d as u8, 1));
    assert_eq!(image.pixels, vec![Rgba { r: 0, g: 1, b: 1, a: 255 }; 2]);
}

#[test]
fn hillshade_flat_grid_shades_by_altitude() {
    let data = fixed(&[1; 9]);
    let seen = RefCell::new(Vec::new());
    let shade = |gx: i64, gy: i64, den: i64| {
        seen.borrow_mut().push((gx, gy, den));
        let altitude = 45.0f32.to_radians();
        let slope = ((gx as f32 / den as f32).hypot(gy as f32 / den as f32)).atan();
        (255.0 * altitude.cos() * slope.cos()).clamp(0.0, 255.0) as u8
    };
    let (gray, _) = hill_shading(&data, RgbaRaster::new(3, 3), 3, 3, SCALE, shade);
    assert_eq!(*seen.borrow(), vec![(0, 0, 8 * SCALE)]);
    assert_eq!(gray.get_pixel(1, 1), (255.0 * 45.0f32.to_radians().cos()) as u8);
    assert_eq!(gray.get_pixel(1, 1), 180);
}

#[test]
fn hillshade_horn_differences_on_a_plane() {
    // z = 2x + 3y, cell size 2: dz/dx = 1 and dz/dy = 1.5 per unit of ground.
    let mut data = Vec::new();
    for y in 0..4i64 {
        for x in 0..4i64 {
            data.push(Some((2 * x + 3 * y) * SCALE));
        }
    }
    let seen = RefCell::new(Vec::new());
    let shade = |gx: i64, gy: i64, den: i64| {
        seen.borrow_mut().push((gx, gy, den));
        128
    };
    let mut colored = RgbaRaster::new(4, 4);
    colored.pixels = vec![Rgba { r: 200, g: 100, b: 50, a: 255 }; 16];
    let (gray, color) = hill_shading(&data, colored, 4, 4, 2 * SCALE, shade);
    assert_eq!(*seen.borrow(), vec![(16 * SCALE, 24 * SCALE, 16 * SCALE); 4]);
    for y in 0..4 {
        for x in 0..4 {
            let border = x == 0 || y == 0 || x == 3 || y == 3;
            if border {
                assert_eq!(gray.get_pixel(x, y), 0);
                assert_eq!(color.get_pixel(x, y), Rgba { r: 0, g: 0, b: 0, a: 0 });
            } else {
                assert_eq!(gray.get_pixel(x, y), 128);
                assert_eq!(color.get_pixel(x, y), Rgba { r: 100, g: 50, b: 25, a: 255 });
            }
        }
    }
}

#[test]
fn hillshade_missing_neighbour_is_black() {
    let mut data = fixed(&[1; 16]);
    data[0] = None;
    let mut colored = RgbaRaster::new(4, 4);
    colored.pixels = vec![Rgba { r: 90, g: 90, b: 90, a: 255 }; 16];
    let (gray, color) = hill_shading(&data, colored, 4, 4, SCALE, |_: i64, _: i64, _: i64| 250);
    assert_eq!(gray.get_pixel(1, 1), 0);
    assert_eq!(color.get_pixel(1, 1), Rgba { r: 0, g: 0, b: 0, a: 255 });
    assert_eq!(gray.get_pixel(2, 2), 250);
    assert_eq!(color.get_pixel(2, 2), Rgba { r: 88, g: 88, b: 88, a: 255 });
    assert_eq!(gray.get_pixel(0, 0), 0);
}

fn ramp_grid() -> Vec<Option<i64>> {
    let mut data = Vec::new();
    for y in 0..5i64 {
        for x in 0..5i64 {
            data.push(Some((x + 10 * y) * SCALE));
        }
    }
    data
}

#[test]
fn gradients_over_a_window_of_three() {
    let g = compute_gradients(&ramp_grid(), 5, 5, 3);
    assert_eq!(g.len(), 25);
    assert_eq!(g[2 * 5 + 2], Some((-2 * SCALE as i128, -20 * SCALE as i128)));
    assert_eq!(g[1 * 5 + 3], Some((-2 * SCALE as i128, -20 * SCALE as i128)));
    assert_eq!(g[0], Some((0, 0)));
    assert_eq!(g[4 * 5 + 2], Some((0, 0)));
}

#[test]
fn gradients_over_a_window_of_five() {
    let g = compute_gradients(&ramp_grid(), 5, 5, 5);
    assert_eq!(g[2 * 5 + 2], Some((-6 * SCALE as i128, -60 * SCALE as i128)));
    assert_eq!(g[1 * 5 + 1], Some((0, 0)));
}

#[test]
fn gradients_with_missing_cell() {
    let mut data = ramp_grid();
    data[2 * 5 + 1] = None;
    let g = compute_gradients(&data, 5, 5, 3);
    assert_eq!(g[2 * 5 + 2], None);
    assert_eq!(g[3 * 5 + 3], Some((-2 * SCALE as i128, -20 * SCALE as i128)));
}

#[test]
fn arrows_on_the_sampling_lattice() {
    let g = compute_gradients(&ramp_grid(), 5, 5, 3);
    let arrows = vector_field_arrows(&g, 5, 5, 2);
    assert_eq!(arrows, vec![Arrow { x: 2, y: 2, dx: -2 * SCALE as i128, dy: -20 * SCALE as i128 }]);
    let arrows = vector_field_arrows(&g, 5, 5, 1);
    assert_eq!(arrows.len(), 9);
    assert_eq!((arrows[0].x, arrows[0].y), (1, 1));
    assert_eq!((arrows[8].x, arrows[8].y), (3, 3));
}

#[test]
fn arrows_skip_zero_and_unknown_vectors() {
    let g = vec![Some((0, 0)), None, Some((1, 0)), Some((0, -1))];
    let arrows = vector_field_arrows(&g, 2, 2, 1);
    assert_eq!(arrows, vec![Arrow { x: 0, y: 1, dx: 1, dy: 0 }, Arrow { x: 1, y: 1, dx: 0, dy: -1 }]);
}
