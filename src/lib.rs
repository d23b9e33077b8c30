//! Contour extraction from a two-dimensional implicit field.
//!
//! A [`HermiteGrid`] samples a field at every lattice point and records the
//! edges whose endpoints disagree in occupancy, together with the crossing
//! point on each. A [`QuadTree`] then partitions the grid's faces, prunes
//! uniform regions, places one dual vertex in every unit face that the
//! contour passes through, and joins the dual vertices on either side of each
//! crossing edge into line segments.
//!
//! All coordinates are exact fixed-point integers: one grid cell spans
//! [`UNIT`] sub-units.

pub mod dual_verts;
pub mod geom;
pub mod grid;
pub mod isoline;
pub mod quadtree;

pub use dual_verts::DualVerts;
pub use geom::{
    Circle, Line, Normal, Point, BISECTION_TOLERANCE, FIELD_LIMIT, NORMAL_STEP, SAMPLE_LIMIT, UNIT,
};
pub use grid::{Edge, HermiteGrid, Index, COORD_LIMIT, CROSSING_GRAIN, MAX_VERTICES};
pub use isoline::{estimate_normal, IsoLine};
pub use quadtree::{Face, QuadTree, MAX_SIZE};
