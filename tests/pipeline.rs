use asc_relief::{asc_to_image, data_to_grayscale, hill_shading, rgb, Rgba, RgbaRaster, SCALE};
use colorgrad::Gradient;

fn turbo() -> impl Fn(u64, u64) -> (u8, u8, u8) {
    let gradient = colorgrad::preset::turbo();
    move |num, den| {
        let [r, g, b, _] = gradient.at(num as f32 / den as f32).to_rgba8();
        (r, g, b)
    }
}

fn illumination(azimuth: f32, altitude: f32) -> impl Fn(i64, i64, i64) -> u8 {
    let radians = std::f32::consts::PI / 180.0;
    let azimuth_rad = azimuth * radians;
    let altitude_rad = altitude * radians;
    move |gx, gy, den| {
        let dz_dx = gx as f32 / den as f32;
        let dz_dy = gy as f32 / den as f32;
        let slope = (dz_dx.powi(2) + dz_dy.powi(2)).sqrt().atan();
        let aspect = dz_dy.atan2(dz_dx);
        let intensity = 255.0
            * (altitude_rad.cos() * slope.cos() + altitude_rad.sin() * slope.sin() * (azimuth_rad - aspect).cos());
        intensity.clamp(0.0, 255.0) as u8
    }
}

fn fixed(values: &[i64]) -> Vec<Option<i64>> {
    values.iter().map(|v| Some(v * SCALE)).collect()
}

#[test]
fn test_asc_to_image_valid() {
    let content = "ncols 5\nnrows 2\nxllcorner 0\nyllcorner 0\ncellsize 1\nnodata_value -9999\n1 2 3 4 5\n6 7 8 9 10\n";
    let result = asc_to_image(content.as_bytes());
    assert!(result.is_ok());
    let grid = result.unwrap();
    assert_eq!(grid.width, 5);
    assert_eq!(grid.height, 2);
    assert_eq!(grid.cells.len(), 10);
    assert_eq!(grid.cells, fixed(&[1, 2, 3, 4, 5, 6, 7, 8, 9, 10]));
}

#[test]
fn test_asc_to_image_with_nodata() {
    let content = "ncols 3\nnrows 2\nxllcorner 0\nyllcorner 0\ncellsize 1\nnodata_value -9999\n1 2 -9999\n-9999 5 6\n";
    let result = asc_to_image(content.as_bytes());
    assert!(result.is_ok());
    let grid = result.unwrap();
    let data = &grid.cells;
    assert_eq!(grid.width, 3);
    assert_eq!(grid.height, 2);
    assert_eq!(data.len(), 6);
    assert!(data[2].is_none());
    assert!(data[3].is_none());
    assert_eq!(data[0], Some(SCALE));
    assert_eq!(data[1], Some(2 * SCALE));
    assert_eq!(data[4], Some(5 * SCALE));
    assert_eq!(data[5], Some(6 * SCALE));
}

#[test]
fn test_asc_to_image_invalid_header() {
    let content = "ncols abc\nnrows 2\nxllcorner 0\nyllcorner 0\ncellsize 1\nnodata_value -9999\n1 2 3\n4 5 6\n";
    let result = asc_to_image(content.as_bytes());
    assert!(result.is_err());
}

#[test]
fn test_data_to_grayscale_basic() {
    let data = fixed(&[0, 1, 2]);
    let width = 3;
    let height = 1;
    let image = data_to_grayscale(data, width, height);
    assert_eq!(image.width(), width);
    assert_eq!(image.height(), height);
    assert_eq!(image.get_pixel(0, 0), 0);
    assert_eq!(image.get_pixel(1, 0), 127);
    assert_eq!(image.get_pixel(2, 0), 255);
}

#[test]
fn test_data_to_grayscale_with_nan() {
    let data = vec![Some(0), None, Some(2 * SCALE)];
    let width = 3;
    let height = 1;
    let image = data_to_grayscale(data, width, height);
    assert_eq!(image.width(), width);
    assert_eq!(image.height(), height);
    assert_eq!(image.get_pixel(0, 0), 0);
    assert_eq!(image.get_pixel(1, 0), 0);
    assert_eq!(image.get_pixel(2, 0), 255);
}

#[test]
fn test_data_to_grayscale_constant_value() {
    let data = fixed(&[5, 5, 5]);
    let width = 3;
    let height = 1;
    let image = data_to_grayscale(data, width, height);
    assert_eq!(image.width(), width);
    assert_eq!(image.height(), height);
    assert_eq!(image.get_pixel(0, 0), 0);
    assert_eq!(image.get_pixel(1, 0), 0);
    assert_eq!(image.get_pixel(2, 0), 0);
}

#[test]
fn test_rgb_basic() {
    let data = fixed(&[0, 1, 2]);
    let width = 3;
    let height = 1;
    let image = rgb(data, width, height, turbo());
    assert_eq!(image.width(), width);
    assert_eq!(image.height(), height);
}

#[test]
fn test_rgb_with_nan() {
    let data = vec![Some(0), None, Some(2 * SCALE)];
    let width = 3;
    let height = 1;
    let image = rgb(data, width, height, turbo());
    assert_eq!(image.width(), width);
    assert_eq!(image.height(), height);
}

#[test]
fn test_hill_shading_basic() {
    let data = fixed(&[1, 1, 1, 1, 2, 1, 1, 1, 1]);
    let width = 3;
    let height = 3;
    let cellsize = SCALE;
    let colored_image = RgbaRaster::new(width, height);
    let (shaded_gray, shaded_rgb) = hill_shading(&data, colored_image, width, height, cellsize, illumination(315.0, 45.0));
    assert_eq!(shaded_gray.width(), width);
    assert_eq!(shaded_gray.height(), height);
    assert_eq!(shaded_rgb.width(), width);
    assert_eq!(shaded_rgb.height(), height);
}

#[test]
fn test_hill_shading_with_nan() {
    let data = vec![
        Some(SCALE), Some(SCALE), Some(SCALE),
        Some(SCALE), None, Some(SCALE),
        Some(SCALE), Some(SCALE), Some(SCALE),
    ];
    let width = 3;
    let height = 3;
    let cellsize = SCALE;
    let colored_image = RgbaRaster::new(width, height);
    let (shaded_gray, shaded_rgb) = hill_shading(&data, colored_image, width, height, cellsize, illumination(315.0, 45.0));
    assert_eq!(shaded_gray.width(), width);
    assert_eq!(shaded_gray.height(), height);
    assert_eq!(shaded_rgb.width(), width);
    assert_eq!(shaded_rgb.height(), height);
    assert_eq!(shaded_rgb.get_pixel(1, 1), Rgba { r: 0, g: 0, b: 0, a: 255 });
}

#[test]
fn test_hill_shading_edge_cases() {
    let data = fixed(&[1, 2, 3, 4]);
    let width = 2;
    let height = 2;
    let cellsize = SCALE;
    let colored_image = RgbaRaster::new(width, height);
    let (shaded_gray, shaded_rgb) = hill_shading(&data, colored_image, width, height, cellsize, illumination(315.0, 45.0));
    assert_eq!(shaded_gray.width(), width);
    assert_eq!(shaded_gray.height(), height);
    assert_eq!(shaded_rgb.width(), width);
    assert_eq!(shaded_rgb.height(), height);
    assert_eq!(shaded_gray.get_pixel(0, 0), 0);
    assert_eq!(shaded_gray.get_pixel(1, 0), 0);
    assert_eq!(shaded_gray.get_pixel(0, 1), 0);
    assert_eq!(shaded_gray.get_pixel(1, 1), 0);
    assert_eq!(shaded_rgb.get_pixel(1, 0), Rgba { r: 0, g: 0, b: 0, a: 0 });
    assert_eq!(shaded_rgb.get_pixel(0, 0), Rgba { r: 0, g: 0, b: 0, a: 0 });
    assert_eq!(shaded_rgb.get_pixel(0, 1), Rgba { r: 0, g: 0, b: 0, a: 0 });
    assert_eq!(shaded_rgb.get_pixel(1, 1), Rgba { r: 0, g: 0, b: 0, a: 0 });
}
