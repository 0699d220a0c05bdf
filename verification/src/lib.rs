//! Approximates a target raster image by simulated annealing: randomly placed
//! single-colored rectangles or triangles are composited onto a working canvas,
//! each candidate accepted or rejected by the Metropolis criterion, with an
//! incremental cost model that stays consistent with a full recomputation.
//!
//! The cost between two buffers is presented elsewhere as the pseudo-RMSE
//! `sqrt(s * s / (w * h * 3))` of the integer sum `s` of per-pixel absolute
//! channel differences. Since that presentation is a strictly monotone scaling
//! of `s`, this library keeps, updates and compares `s` itself, in exact
//! integer arithmetic; callers apply the scaling when displaying the cost.

pub mod anneal;
pub mod buffer;
pub mod cost;
pub mod generate;
pub mod pixel;
pub mod raster;

pub use anneal::anneal_step;
pub use anneal::commit_candidate;
pub use buffer::AnnealError;
pub use buffer::PixelBuffer;
pub use cost::get_cost;
pub use cost::update_cost;
pub use generate::get_neighbor;
pub use pixel::pixel_difference;
pub use pixel::Pixel;
pub use raster::get_rectangle;
pub use raster::get_triangle;
