//! Ear-clipping triangulation of simple polygons.
//!
//! A polygon is given as an ordered ring of vertices; the ring is kept as an
//! index-addressed doubly-linked list, and ears (convex corners whose
//! triangle swallows no other live vertex) are clipped one by one until only
//! a single edge remains, or until a full walk of the ring finds no further
//! ear.
//!
//! Two conventions are fixed throughout and documented on the geometric
//! primitives: a corner is reflex when its doubled signed area is zero or
//! negative (so exactly colinear corners are never clipped), and the ear
//! test uses the neighbour-reflex-gated containment rule: a vertex inside
//! the candidate triangle disqualifies the ear only when that vertex's own
//! corner is reflex.

pub mod area;
pub mod clip;
pub mod geometry;

pub use clip::Earcut;
pub use clip::EarcutError;
pub use clip::Node;
pub use geometry::Point;
pub use geometry::Triangle;
