//! The tree-wide laws, each proved from the well-formedness invariant.

use crate::geom::{masses_total, weighted_x, weighted_y, PointMass};
use crate::node::{is_leaf_spec, node_local_ok};
use crate::tree::QuadTree;
use vstd::prelude::*;

verus! {

/// Mass conservation: the root's mass equals the sum of every inserted
/// mass, whether or not a root expansion occurred.
pub proof fn lemma_mass_conservation(t: QuadTree)
    requires
        t.wf(),
    ensures
        t.total_mass() == masses_total(t.inserted@),
{
}

/// Center-of-mass correctness: the root's weighted coordinate sums equal
/// the mass-weighted sums of every inserted position, so the root's exact
/// center of mass is the mass-weighted average of the inserted points.
pub proof fn lemma_center_of_mass(t: QuadTree)
    requires
        t.wf(),
    ensures
        t.total_weighted_x() == weighted_x(t.inserted@),
        t.total_weighted_y() == weighted_y(t.inserted@),
{
}

/// The bounds remain square: the covered region always has equal width and
/// height.
pub proof fn lemma_bounds_square(t: QuadTree)
    requires
        t.wf(),
    ensures
        t.bounds[1].x - t.bounds[0].x == t.bounds[1].y - t.bounds[0].y,
{
}

/// Leaf identity: a leaf holding one point records exactly that point's
/// position and mass, so its weighted sums are exactly mass times position.
pub proof fn lemma_leaf_identity(t: QuadTree, i: int)
    requires
        t.wf(),
        0 <= i < t.vec@.len(),
        is_leaf_spec(t.vec@[i]),
        t.vec@[i].pts@.len() == 1,
    ensures
        t.vec@[i].pts@[0] == (PointMass { pos: t.vec@[i].pos, mass: t.vec@[i].mass }),
        t.vec@[i].com_x == t.vec@[i].mass * t.vec@[i].pos.x,
        t.vec@[i].com_y == t.vec@[i].mass * t.vec@[i].pos.y,
{
    let n = t.vec@[i];
    assert(node_local_ok(n));
    assert(n.pts@.drop_last() =~= Seq::<PointMass>::empty());
    assert(n.pts@.last() == n.pts@[0]);
    assert(weighted_x(n.pts@) == weighted_x(n.pts@.drop_last()) + n.pts@.last().mass
        * n.pts@.last().pos.x);
    assert(weighted_y(n.pts@) == weighted_y(n.pts@.drop_last()) + n.pts@.last().mass
        * n.pts@.last().pos.y);
    assert(weighted_x(n.pts@.drop_last()) == 0);
    assert(weighted_y(n.pts@.drop_last()) == 0);
}

} // verus!
