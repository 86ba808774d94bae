//! Collision geometry for a playfield drawn as a bitmap: every pixel is either
//! background or solid terrain, and the solid pixels are turned into rectangles
//! and outlines that a physics engine can place as static colliders.

pub mod pixel;
pub mod grid;
pub mod geometry;
pub mod scanline;
pub mod simplify;
pub mod region;
pub mod contour;
pub mod outline;
pub mod perimeter;

pub use crate::outline::load_level_geo_old;
pub use crate::scanline::{load_level_geo, load_level_geo_new};
