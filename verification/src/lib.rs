//! A Barnes-Hut spatial index: a region quadtree over exact integer
//! coordinates. Point masses are inserted one by one; each node keeps the
//! total mass and the mass-weighted coordinate sums of the points below it,
//! so the center of mass of a node is the exact rational
//! (`com_x` / `mass`, `com_y` / `mass`). A query walks the tree and returns,
//! for a given accuracy threshold, a set of nodes whose aggregates stand in
//! for the individual points.

pub mod geom;
pub mod laws;
pub mod node;
pub mod tree;
