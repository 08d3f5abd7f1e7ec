//! Plane geometry over exact integer coordinates, and the mathematical
//! model of a collection of point masses: total mass and mass-weighted
//! coordinate sums.

use vstd::prelude::*;

verus! {

/// Largest coordinate magnitude accepted for inserted points and for the
/// center handed to `QuadTree::new`.
pub const COORD_LIMIT: i64 = 1_000_000;

/// A root expansion is accepted only while the side length of the covered
/// square is at most this, so the doubled region stays in range.
pub const SIDE_LIMIT: i64 = 16_000_000;

/// The side length of the covered square never exceeds this
/// (one doubling past `SIDE_LIMIT`).
pub const SIDE_CAP: i64 = 32_000_000;

/// Every node's region satisfies `|center| + half_size <= CENTER_CAP`
/// on each axis.
pub const CENTER_CAP: i64 = 97_000_000;

/// Upper bound on the total mass held by one tree.
pub const MASS_LIMIT: u64 = 50_000_000;

/// The accuracy threshold passed to `collect_bodies` is a count of
/// thousandths: a threshold of `THETA_ONE` is the ratio 1.
pub const THETA_ONE: u64 = 1_000;

/// Upper bound on the accuracy threshold passed to `collect_bodies`.
pub const THETA_LIMIT: u64 = 10_000_000_000_000_000_000;

/// A position on the plane, in exact integer coordinates.
#[derive(Clone, Copy, PartialEq, Eq, Structural, Debug)]
pub struct Vec2i {
    pub x: i64,
    pub y: i64,
}

/// One inserted point mass.
#[derive(Clone, Copy, PartialEq, Eq, Structural, Debug)]
pub struct PointMass {
    pub pos: Vec2i,
    pub mass: u64,
}

/// Sum of the masses of a sequence of point masses.
pub open spec fn masses_total(s: Seq<PointMass>) -> int
    decreases s.len(),
{
    if s.len() == 0 {
        0
    } else {
        masses_total(s.drop_last()) + s.last().mass
    }
}

/// Mass-weighted sum of the x coordinates of a sequence of point masses.
/// The exact center of mass of `s` is
/// (`weighted_x(s)` / `masses_total(s)`, `weighted_y(s)` / `masses_total(s)`).
pub open spec fn weighted_x(s: Seq<PointMass>) -> int
    decreases s.len(),
{
    if s.len() == 0 {
        0
    } else {
        weighted_x(s.drop_last()) + s.last().mass * s.last().pos.x
    }
}

/// Mass-weighted sum of the y coordinates of a sequence of point masses.
pub open spec fn weighted_y(s: Seq<PointMass>) -> int
    decreases s.len(),
{
    if s.len() == 0 {
        0
    } else {
        weighted_y(s.drop_last()) + s.last().mass * s.last().pos.y
    }
}

/// Appending one point extends each of the three sums by that point's
/// contribution.
pub proof fn lemma_sums_push(s: Seq<PointMass>, p: PointMass)
    ensures
        masses_total(s.push(p)) == masses_total(s) + p.mass,
        weighted_x(s.push(p)) == weighted_x(s) + p.mass * p.pos.x,
        weighted_y(s.push(p)) == weighted_y(s) + p.mass * p.pos.y,
{
    assert(s.push(p).drop_last() =~= s);
    assert(s.push(p).last() == p);
}

/// Index of the quadrant of a region centered at `center` that `p` belongs
/// to. The two deciding comparisons are `p.x > center.x` and
/// `p.y > center.y`; a point exactly on a boundary falls to the `false`
/// side. Every position maps to exactly one quadrant, and the index is the
/// one whose region (see `quad_center_x`/`quad_center_y`) contains `p`.
pub open spec fn quad_of(center: Vec2i, p: Vec2i) -> int {
    if p.x > center.x {
        if p.y > center.y {
            2int
        } else {
            1int
        }
    } else {
        if p.y > center.y {
            3int
        } else {
            0int
        }
    }
}

/// X coordinate of the center of the child region with quadrant index `q`,
/// for a parent centered at `center` whose children have half size `h`.
pub open spec fn quad_center_x(center: Vec2i, h: int, q: int) -> int {
    if q == 0 {
        center.x - h
    } else if q == 1 {
        center.x + h
    } else if q == 2 {
        center.x + h
    } else {
        center.x - h
    }
}

/// Y coordinate of the center of the child region with quadrant index `q`.
pub open spec fn quad_center_y(center: Vec2i, h: int, q: int) -> int {
    if q == 0 {
        center.y - h
    } else if q == 1 {
        center.y - h
    } else if q == 2 {
        center.y + h
    } else {
        center.y + h
    }
}

} // verus!
