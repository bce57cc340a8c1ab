//! Verified core of the crucible cellular simulation: material
//! classification, the cell grid's layout, the active-cell scheduler,
//! scenario layouts, brush strokes and framebuffer rasterisation.

pub mod brush;
pub mod grid;
pub mod material;
pub mod priority;
pub mod render;
pub mod scenario;
pub mod scheduler;

pub use grid::{Grid, NeighborCells, Neighbors};
pub use material::Material;
