//! Content-aware image shrinking by seam carving.
//!
//! The engine works on in-memory buffers only: it computes a per-pixel
//! gradient energy map, builds a dynamic-programming cost matrix over it,
//! extracts the minimum-cost connected seam, and removes that seam from all
//! parallel buffers, keeping them in lock-step. Decoding and encoding image
//! files is left to the caller.

pub mod cost;
pub mod seam;
pub mod sobel;

pub use cost::Direction;
pub use cost::build_cost_matrix;
pub use cost::find_shortest_path;
pub use seam::CarveError;
pub use seam::Dims;
pub use seam::SeamCarver;
pub use seam::remove_path_from_image;
pub use seam::to_grayscale;
pub use sobel::Kernel;
pub use sobel::Sobel;
