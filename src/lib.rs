//! A raster-image editing core: multi-plane pixel buffers, windowed access,
//! brush stamping, line rasterization, channel compositing and selection
//! contour tracing.
use vstd::prelude::*;

pub mod brushes;
pub mod channels;
pub mod color_picker;
pub mod contours;
pub mod histogram;
pub mod moore;
pub mod image_buffer;
pub mod ops;
pub mod state;
pub mod tools;
pub mod utils;

verus! {

} // verus!
