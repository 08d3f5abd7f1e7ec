//! One node of the quadtree: the square region it owns, its aggregate mass
//! and mass-weighted coordinate sums, and up to four child slots.

use crate::geom::{
    masses_total, quad_center_x, quad_center_y, quad_of, weighted_x, weighted_y, PointMass, Vec2i,
    CENTER_CAP, COORD_LIMIT, MASS_LIMIT,
};
use vstd::prelude::*;

verus! {

/// One spatial region of the tree. A leaf (all child slots empty)
/// represents at most one inserted point; an internal node aggregates its
/// descendants. `com_x` and `com_y` are the mass-weighted coordinate sums
/// of the points in the subtree, so the exact center of mass is
/// (`com_x` / `mass`, `com_y` / `mass`). For a leaf holding one point,
/// `pos` is exactly that point's position. `pts` is the ghost record of the
/// points this node stands for.
#[derive(Clone, Copy)]
pub struct Node {
    /// Arena indices of the child nodes, one per quadrant.
    pub children: [Option<usize>; 4],
    /// Sum of the masses of all points in this node's subtree.
    pub mass: u64,
    /// Geometric center of the square region this node owns.
    pub center: Vec2i,
    /// Distance from `center` to the side of the square.
    pub half_size: i64,
    /// Mass-weighted sum of the x coordinates of the subtree's points.
    pub com_x: i128,
    /// Mass-weighted sum of the y coordinates of the subtree's points.
    pub com_y: i128,
    /// For a leaf holding one point: that point's position.
    pub pos: Vec2i,
    /// The points this node's aggregates stand for.
    pub pts: Ghost<Seq<PointMass>>,
}

/// The child slot of `n` with quadrant index `q`.
pub open spec fn child_at(n: Node, q: int) -> Option<usize> {
    if q == 0 {
        n.children[0]
    } else if q == 1 {
        n.children[1]
    } else if q == 2 {
        n.children[2]
    } else {
        n.children[3]
    }
}

/// A leaf has all four child slots empty.
pub open spec fn is_leaf_spec(n: Node) -> bool {
    &&& n.children[0] is None
    &&& n.children[1] is None
    &&& n.children[2] is None
    &&& n.children[3] is None
}

/// The facts local to one node: its aggregates equal the sums over its
/// ghost points, its numbers are in range, and a leaf records at most one
/// point, whose position and mass are exactly the leaf's own.
pub open spec fn node_local_ok(n: Node) -> bool {
    &&& n.mass <= MASS_LIMIT
    &&& 0 <= n.half_size
    &&& n.center.x - n.half_size >= -CENTER_CAP
    &&& n.center.x + n.half_size <= CENTER_CAP
    &&& n.center.y - n.half_size >= -CENTER_CAP
    &&& n.center.y + n.half_size <= CENTER_CAP
    &&& n.com_x <= (n.mass as int) * (COORD_LIMIT as int)
    &&& -((n.mass as int) * (COORD_LIMIT as int)) <= n.com_x
    &&& n.com_y <= (n.mass as int) * (COORD_LIMIT as int)
    &&& -((n.mass as int) * (COORD_LIMIT as int)) <= n.com_y
    &&& n.mass as int == masses_total(n.pts@)
    &&& n.com_x as int == weighted_x(n.pts@)
    &&& n.com_y as int == weighted_y(n.pts@)
    &&& is_leaf_spec(n) ==> n.pts@.len() <= 1
    &&& is_leaf_spec(n) && n.pts@.len() == 1 ==> n.pts@[0] == (PointMass {
        pos: n.pos,
        mass: n.mass,
    })
}

impl Node {
    /// Index of the quadrant of this node's region that `pos` belongs to.
    pub fn get_quadrant(&self, pos: Vec2i) -> (q: usize)
        ensures
            q as int == quad_of(self.center, pos),
            q < 4,
    {
        if pos.x > self.center.x {
            if pos.y > self.center.y {
                2
            } else {
                1
            }
        } else {
            if pos.y > self.center.y {
                3
            } else {
                0
            }
        }
    }

    /// Whether this node is a leaf, that is, has no children.
    pub fn is_leaf(&self) -> (r: bool)
        ensures
            r == is_leaf_spec(*self),
    {
        self.children[0].is_none() && self.children[1].is_none() && self.children[2].is_none()
            && self.children[3].is_none()
    }
}

} // verus!
