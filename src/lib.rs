//! Elevation grids in the ASCII raster format, and the rasters drawn from
//! them: grey levels, a colour ramp, Horn hillshading and a gradient field.
//! Elevations are fixed point (see `grid::SCALE`); a cell without data is
//! `None`. The floating-point steps (the colour ramp, illumination and the
//! drawing of arrows) are supplied by the caller.
use vstd::prelude::*;

pub mod field;
pub mod grid;
pub mod hillshade;
pub mod laws;
pub mod parse;
pub mod raster;
pub mod render;

pub use field::{compute_gradients, vector_field_arrows, Arrow};
pub use grid::{ElevationGrid, GridError, SCALE};
pub use hillshade::hill_shading;
pub use parse::asc_to_image;
pub use raster::{GrayRaster, Rgba, RgbaRaster};
pub use render::{data_to_grayscale, rgb, value_range};

verus! {

} // verus!
