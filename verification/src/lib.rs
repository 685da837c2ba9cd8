//! Shadow-outline authoring library.
//!
//! An image's alpha silhouette is partitioned into a row-major grid of
//! fixed-size cells; for each cell a closed polygonal outline is traced
//! and interpreted into directed line segments; the whole grid is
//! persisted in the compact binary `SHDW` format and read back losslessly.

pub mod codec;
pub mod geom;
pub mod grid;
pub mod outline;

pub use codec::ShdwError;
pub use geom::{f32_bits, Line, Point, PxLine, PxPoint};
pub use grid::{Cell, Shdw};
pub use outline::{Mask, PathCommand, RgbaBuffer, Tracer};
