//! Discovers every distinct pair of differing, spatially adjacent pixel
//! colors in a raster image, reported either as a deduplicated bidirectional
//! table or as a count.

pub mod adjacency;
pub mod aggregate;
pub mod color;
pub mod grid;
pub mod output;

pub use adjacency::AdjacencySet;
pub use aggregate::aggregate;
pub use aggregate::color_adjacencies;
pub use aggregate::pairs_at;
pub use color::Color;
pub use color::PixelPair;
pub use grid::Dimensions;
pub use grid::Location;
pub use grid::Offset;
pub use grid::from_index;
pub use grid::offsets_4;
pub use grid::offsets_8;
pub use grid::to_index;
pub use output::Output;
pub use output::OutputMode;
pub use output::project;
pub use output::render_table;
pub use output::to_sorted;
