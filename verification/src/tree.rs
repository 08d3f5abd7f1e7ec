//! The quadtree itself: an arena of nodes, a root index and square bounds,
//! with insertion (subdivision and root expansion) and the threshold-gated
//! query that collects aggregate bodies.

use crate::geom::{
    lemma_sums_push, masses_total, quad_center_x, quad_center_y, quad_of, weighted_x, weighted_y,
    PointMass, Vec2i, CENTER_CAP, COORD_LIMIT, MASS_LIMIT, SIDE_CAP, SIDE_LIMIT, THETA_LIMIT,
    THETA_ONE,
};
use crate::node::{child_at, is_leaf_spec, node_local_ok, Node};
use vstd::multiset::Multiset;
use vstd::prelude::*;

verus! {

/// A Barnes-Hut quadtree. `vec` is the append-only arena of nodes; indices
/// are stable for the tree's lifetime. `bounds` is the square region the
/// root covers, as its two corners. `inserted` is the ghost record of every
/// insertion, in order. `complete` records that every inserted point was
/// fully placed in its own leaf; a root expansion, or an insertion that
/// descends into a degenerate zero-size region, folds the point into
/// aggregates only and clears it.
pub struct QuadTree {
    /// The inner vector, storing the nodes.
    pub vec: Vec<Node>,
    /// The two corners (minimum, maximum) of the covered square region.
    pub bounds: [Vec2i; 2],
    /// The index of the root node.
    pub root: usize,
    /// Every point mass inserted so far, in insertion order.
    pub inserted: Ghost<Seq<PointMass>>,
    /// Whether every inserted point is represented by its own leaf.
    pub complete: Ghost<bool>,
}

/// The mass recorded in an optional child slot; 0 for an empty slot.
pub open spec fn slot_mass(v: Seq<Node>, slot: Option<usize>) -> int {
    match slot {
        Some(c) => if c < v.len() {
            v[c as int].mass as int
        } else {
            0
        },
        None => 0,
    }
}

/// Sum of the masses of the children of `n`.
pub open spec fn children_mass(v: Seq<Node>, n: Node) -> int {
    slot_mass(v, n.children[0]) + slot_mass(v, n.children[1]) + slot_mass(v, n.children[2])
        + slot_mass(v, n.children[3])
}

/// The points recorded in an optional child slot, as a multiset.
pub open spec fn slot_pts(v: Seq<Node>, slot: Option<usize>) -> Multiset<PointMass> {
    match slot {
        Some(c) => if c < v.len() {
            v[c as int].pts@.to_multiset()
        } else {
            Multiset::empty()
        },
        None => Multiset::empty(),
    }
}

/// The points recorded in the children of `n`, as one multiset.
pub open spec fn children_pts(v: Seq<Node>, n: Node) -> Multiset<PointMass> {
    slot_pts(v, n.children[0]).add(slot_pts(v, n.children[1])).add(
        slot_pts(v, n.children[2]),
    ).add(slot_pts(v, n.children[3]))
}

/// Each child slot of node `i` holds a valid arena index, other than `i`
/// itself, and the child's region is the matching quadrant of `i`'s region
/// with the half size halved. A node whose region has shrunk to half size
/// zero only ever holds leaves, so every chain of children strictly
/// shrinks within one link of reaching zero: the child graph is well
/// founded and the nodes reachable from the root form a tree.
pub open spec fn node_children_ok(v: Seq<Node>, i: int) -> bool {
    forall|q: int|
        0 <= q < 4 ==> match #[trigger] child_at(v[i], q) {
            Some(c) => {
                &&& (c as int) < v.len()
                &&& (c as int) != i
                &&& v[c as int].half_size == v[i].half_size / 2
                &&& v[c as int].center.x == quad_center_x(v[i].center, v[i].half_size / 2, q)
                &&& v[c as int].center.y == quad_center_y(v[i].center, v[i].half_size / 2, q)
                &&& (v[i].half_size == 0 ==> is_leaf_spec(v[c as int]))
            },
            None => true,
        }
}

/// No arena index sits in two different child slots.
pub open spec fn slots_unique(v: Seq<Node>) -> bool {
    forall|i1: int, q1: int, i2: int, q2: int|
        0 <= i1 < v.len() && 0 <= q1 < 4 && 0 <= i2 < v.len() && 0 <= q2 < 4
            && #[trigger] child_at(v[i1], q1) is Some && child_at(v[i1], q1) == #[trigger] child_at(
            v[i2],
            q2,
        ) ==> i1 == i2 && q1 == q2
}

/// `r` is in no child slot.
pub open spec fn not_a_child(v: Seq<Node>, r: int) -> bool {
    forall|i: int, q: int|
        0 <= i < v.len() && 0 <= q < 4 ==> #[trigger] child_at(v[i], q) != Some(r as usize)
}

/// The ungated per-arena facts: every node is locally consistent, child
/// slots are valid and unique, and no node's children outweigh it.
pub open spec fn nodes_ok(v: Seq<Node>) -> bool {
    &&& forall|i: int| 0 <= i < v.len() ==> node_local_ok(#[trigger] v[i])
    &&& forall|i: int| 0 <= i < v.len() ==> #[trigger] node_children_ok(v, i)
    &&& slots_unique(v)
    &&& forall|i: int| 0 <= i < v.len() ==> #[trigger] children_mass(v, v[i]) <= v[i].mass
}

/// The node `n` after folding the point `p` into its aggregates (and, for
/// a leaf, recording `p`'s position).
pub open spec fn absorbed(n: Node, p: PointMass) -> Node {
    Node {
        children: n.children,
        mass: (n.mass + p.mass) as u64,
        center: n.center,
        half_size: n.half_size,
        com_x: (n.com_x + p.mass * p.pos.x) as i128,
        com_y: (n.com_y + p.mass * p.pos.y) as i128,
        pos: if is_leaf_spec(n) {
            p.pos
        } else {
            n.pos
        },
        pts: Ghost(n.pts@.push(p)),
    }
}

/// How one pre-existing node may change over a single in-bounds
/// insertion of `p`: it is wholly unchanged; or it lies on the descent
/// path and has exactly `p` folded into its aggregates, its child slots
/// possibly relinked by a promotion; or it is the one leaf a promotion
/// cascade demotes, re-centered with a smaller region and everything else
/// unchanged.
pub open spec fn insert_node_evolution(old_n: Node, new_n: Node, p: PointMass) -> bool {
    ||| new_n == old_n
    ||| {
        &&& new_n.pts@ == old_n.pts@.push(p)
        &&& new_n.mass == old_n.mass + p.mass
        &&& new_n.com_x == old_n.com_x + p.mass * p.pos.x
        &&& new_n.com_y == old_n.com_y + p.mass * p.pos.y
        &&& new_n.center == old_n.center
        &&& new_n.half_size == old_n.half_size
        &&& new_n.pos == (if is_leaf_spec(old_n) {
            p.pos
        } else {
            old_n.pos
        })
    }
    ||| {
        &&& is_leaf_spec(old_n)
        &&& is_leaf_spec(new_n)
        &&& new_n.pts == old_n.pts
        &&& new_n.mass == old_n.mass
        &&& new_n.com_x == old_n.com_x
        &&& new_n.com_y == old_n.com_y
        &&& new_n.pos == old_n.pos
        &&& new_n.children == old_n.children
        &&& 0 <= new_n.half_size <= old_n.half_size
    }
}

/// Two arenas of equal length that keep every child slot, center and half
/// size unchanged have the same child structure facts.
#[verifier::rlimit(60)]
proof fn lemma_structure_frame(v: Seq<Node>, v2: Seq<Node>)
    requires
        v.len() == v2.len(),
        forall|j: int|
            0 <= j < v.len() ==> (#[trigger] v2[j]).children == v[j].children && v2[j].center
                == v[j].center && v2[j].half_size == v[j].half_size,
        forall|j: int| 0 <= j < v.len() ==> #[trigger] node_children_ok(v, j),
        slots_unique(v),
    ensures
        forall|j: int| 0 <= j < v2.len() ==> #[trigger] node_children_ok(v2, j),
        slots_unique(v2),
        forall|r: int| not_a_child(v, r) ==> not_a_child(v2, r),
{
    assert forall|j: int| 0 <= j < v2.len() implies #[trigger] node_children_ok(v2, j) by {
        assert(node_children_ok(v, j));
        assert forall|q: int| 0 <= q < 4 implies child_at(v2[j], q) == child_at(v[j], q) by {}
    }
    assert forall|i1: int, q1: int, i2: int, q2: int|
        0 <= i1 < v2.len() && 0 <= q1 < 4 && 0 <= i2 < v2.len() && 0 <= q2 < 4
            && #[trigger] child_at(v2[i1], q1) is Some && child_at(v2[i1], q1)
            == #[trigger] child_at(v2[i2], q2) implies i1 == i2 && q1 == q2 by {
        assert(child_at(v2[i1], q1) == child_at(v[i1], q1));
        assert(child_at(v2[i2], q2) == child_at(v[i2], q2));
    }
    assert forall|r: int| not_a_child(v, r) implies not_a_child(v2, r) by {
        assert forall|i: int, q: int|
            0 <= i < v2.len() && 0 <= q < 4 implies #[trigger] child_at(v2[i], q) != Some(
            r as usize,
        ) by {
            assert(child_at(v2[i], q) == child_at(v[i], q));
            assert(child_at(v[i], q) != Some(r as usize));
        }
    }
}

/// Helper: with node `i`'s points extended by `p` and every other node
/// unchanged, no slot other than `(pi, pq)` holds `i`.
#[verifier::rlimit(60)]
proof fn lemma_only_parent_slot(v: Seq<Node>, i: usize, pi: int, pq: int)
    requires
        (i as int) < v.len(),
        slots_unique(v),
        pi >= 0 ==> 0 <= pi < v.len() && 0 <= pq < 4 && child_at(v[pi], pq) == Some(i as usize),
        pi < 0 ==> not_a_child(v, i as int),
    ensures
        forall|j: int, q: int|
            0 <= j < v.len() && 0 <= q < 4 && !(j == pi && q == pq) ==> #[trigger] child_at(
                v[j],
                q,
            ) != Some(i as usize),
{
    assert forall|j: int, q: int|
        0 <= j < v.len() && 0 <= q < 4 && !(j == pi && q == pq) implies #[trigger] child_at(
        v[j],
        q,
    ) != Some(i as usize) by {
        if child_at(v[j], q) == Some(i as usize) {
            if pi >= 0 {
                assert(child_at(v[j], q) is Some && child_at(v[j], q) == child_at(v[pi], pq));
            } else {
                assert(!not_a_child(v, i as int));
            }
        }
    }
}

/// After changing only the aggregates of node `i` — points extended by `p`,
/// mass raised by `p.mass`, slots untouched — the children mass sums change
/// only at `i`'s unique parent slot `(pi, pq)` (`pi == -1` when `i` is in
/// no slot).
#[verifier::rlimit(100)]
#[verifier::spinoff_prover]
proof fn lemma_absorb_mass_frame(
    v: Seq<Node>,
    v2: Seq<Node>,
    i: usize,
    p: PointMass,
    pi: int,
    pq: int,
)
    requires
        v.len() == v2.len(),
        (i as int) < v.len(),
        forall|j: int| 0 <= j < v.len() && j != i as int ==> v2[j] == v[j],
        v2[i as int].children == v[i as int].children,
        v2[i as int].mass == v[i as int].mass + p.mass,
        slots_unique(v),
        pi >= 0 ==> 0 <= pi < v.len() && 0 <= pq < 4 && child_at(v[pi], pq) == Some(i as usize),
        pi < 0 ==> not_a_child(v, i as int),
    ensures
        forall|j: int|
            0 <= j < v.len() && j != pi ==> #[trigger] children_mass(v2, v2[j]) == children_mass(
                v,
                v[j],
            ),
        pi >= 0 ==> children_mass(v2, v2[pi]) == children_mass(v, v[pi]) + p.mass,
{
    lemma_only_parent_slot(v, i, pi, pq);
    assert forall|j: int|
        0 <= j < v.len() && j != pi implies #[trigger] children_mass(v2, v2[j]) == children_mass(
        v,
        v[j],
    ) by {
        assert(child_at(v[j], 0) == v[j].children[0]);
        assert(child_at(v[j], 1) == v[j].children[1]);
        assert(child_at(v[j], 2) == v[j].children[2]);
        assert(child_at(v[j], 3) == v[j].children[3]);
        assert(v2[j].children == v[j].children);
    }
    if pi >= 0 {
        assert forall|q: int|
            0 <= q < 4 && q != pq implies slot_mass(v2, child_at(v[pi], q)) == slot_mass(
            v,
            child_at(v[pi], q),
        ) by {
            assert(child_at(v[pi], q) != Some(i as usize));
            match child_at(v[pi], q) {
                Some(c) => {
                    if (c as int) < v.len() {
                        assert(c != i);
                        assert(v2[c as int] == v[c as int]);
                    }
                },
                None => {},
            }
        }
        assert(slot_mass(v2, child_at(v[pi], pq)) == slot_mass(v, child_at(v[pi], pq)) + p.mass);
        assert(child_at(v[pi], 0) == v[pi].children[0]);
        assert(child_at(v[pi], 1) == v[pi].children[1]);
        assert(child_at(v[pi], 2) == v[pi].children[2]);
        assert(child_at(v[pi], 3) == v[pi].children[3]);
        assert(v2[pi].children == v[pi].children);
        assert(children_mass(v2, v2[pi]) == slot_mass(v2, child_at(v[pi], 0)) + slot_mass(
            v2,
            child_at(v[pi], 1),
        ) + slot_mass(v2, child_at(v[pi], 2)) + slot_mass(v2, child_at(v[pi], 3)));
        assert(children_mass(v, v[pi]) == slot_mass(v, child_at(v[pi], 0)) + slot_mass(
            v,
            child_at(v[pi], 1),
        ) + slot_mass(v, child_at(v[pi], 2)) + slot_mass(v, child_at(v[pi], 3)));
        assert(children_mass(v2, v2[pi]) == children_mass(v, v[pi]) + p.mass);
    }
}

/// The points analog of `lemma_absorb_mass_frame`.
#[verifier::rlimit(100)]
#[verifier::spinoff_prover]
proof fn lemma_absorb_pts_frame(
    v: Seq<Node>,
    v2: Seq<Node>,
    i: usize,
    p: PointMass,
    pi: int,
    pq: int,
)
    requires
        v.len() == v2.len(),
        (i as int) < v.len(),
        forall|j: int| 0 <= j < v.len() && j != i as int ==> v2[j] == v[j],
        v2[i as int].children == v[i as int].children,
        v2[i as int].pts@ == v[i as int].pts@.push(p),
        slots_unique(v),
        pi >= 0 ==> 0 <= pi < v.len() && 0 <= pq < 4 && child_at(v[pi], pq) == Some(i as usize),
        pi < 0 ==> not_a_child(v, i as int),
    ensures
        forall|j: int|
            0 <= j < v.len() && j != pi ==> #[trigger] children_pts(v2, v2[j]) == children_pts(
                v,
                v[j],
            ),
        pi >= 0 ==> children_pts(v2, v2[pi]) == children_pts(v, v[pi]).insert(p),
{
    lemma_only_parent_slot(v, i, pi, pq);
    vstd::seq_lib::to_multiset_build(v[i as int].pts@, p);
    assert(v2[i as int].pts@.to_multiset() == v[i as int].pts@.to_multiset().insert(p));
    assert forall|j: int|
        0 <= j < v.len() && j != pi implies #[trigger] children_pts(v2, v2[j]) == children_pts(
        v,
        v[j],
    ) by {
        assert(child_at(v[j], 0) == v[j].children[0]);
        assert(child_at(v[j], 1) == v[j].children[1]);
        assert(child_at(v[j], 2) == v[j].children[2]);
        assert(child_at(v[j], 3) == v[j].children[3]);
        assert(v2[j].children == v[j].children);
        assert(children_pts(v2, v2[j]) =~= children_pts(v, v[j]));
    }
    if pi >= 0 {
        assert forall|q: int|
            0 <= q < 4 && q != pq implies slot_pts(v2, child_at(v[pi], q)) == slot_pts(
            v,
            child_at(v[pi], q),
        ) by {
            assert(child_at(v[pi], q) != Some(i as usize));
            match child_at(v[pi], q) {
                Some(c) => {
                    if (c as int) < v.len() {
                        assert(c != i);
                        assert(v2[c as int] == v[c as int]);
                    }
                },
                None => {},
            }
        }
        assert(slot_pts(v2, child_at(v[pi], pq)) == slot_pts(v, child_at(v[pi], pq)).insert(p));
        assert(child_at(v[pi], 0) == v[pi].children[0]);
        assert(child_at(v[pi], 1) == v[pi].children[1]);
        assert(child_at(v[pi], 2) == v[pi].children[2]);
        assert(child_at(v[pi], 3) == v[pi].children[3]);
        assert(v2[pi].children == v[pi].children);
        assert(children_pts(v2, v2[pi]) == slot_pts(v2, child_at(v[pi], 0)).add(
            slot_pts(v2, child_at(v[pi], 1)),
        ).add(slot_pts(v2, child_at(v[pi], 2))).add(slot_pts(v2, child_at(v[pi], 3))));
        assert(children_pts(v, v[pi]) == slot_pts(v, child_at(v[pi], 0)).add(
            slot_pts(v, child_at(v[pi], 1)),
        ).add(slot_pts(v, child_at(v[pi], 2))).add(slot_pts(v, child_at(v[pi], 3))));
        assert(children_pts(v2, v2[pi]) =~= children_pts(v, v[pi]).insert(p));
    }
}

/// Changing only the child slots of node `t` (its aggregates, points,
/// center and half size unchanged) leaves every other node's children sums
/// unchanged.
#[verifier::rlimit(60)]
proof fn lemma_relink_frame(v: Seq<Node>, v2: Seq<Node>, t: usize)
    requires
        v.len() == v2.len(),
        (t as int) < v.len(),
        forall|j: int| 0 <= j < v.len() && j != t as int ==> v2[j] == v[j],
        v2[t as int].mass == v[t as int].mass,
        v2[t as int].pts == v[t as int].pts,
    ensures
        forall|j: int|
            0 <= j < v.len() && j != t as int ==> #[trigger] children_mass(v2, v2[j])
                == children_mass(v, v[j]) && children_pts(v2, v2[j]) == children_pts(v, v[j]),
{
    assert forall|j: int|
        0 <= j < v.len() && j != t as int implies #[trigger] children_mass(v2, v2[j])
        == children_mass(v, v[j]) && children_pts(v2, v2[j]) == children_pts(v, v[j]) by {
        assert(v2[j] == v[j]);
        assert forall|slot: Option<usize>|
            slot == v[j].children[0] || slot == v[j].children[1] || slot == v[j].children[2]
                || slot == v[j].children[3] implies slot_mass(v2, slot) == slot_mass(v, slot)
            && slot_pts(v2, slot) == slot_pts(v, slot) by {
            match slot {
                Some(c) => {
                    if (c as int) < v.len() {
                        if c != t {
                            assert(v2[c as int] == v[c as int]);
                        }
                    }
                },
                None => {},
            }
        }
    }
}

/// Appending leaf nodes to the arena leaves the structure facts and the
/// children sums of the existing nodes unchanged.
#[verifier::rlimit(60)]
proof fn lemma_push_frame(v: Seq<Node>, v2: Seq<Node>)
    requires
        v.len() <= v2.len(),
        forall|j: int| 0 <= j < v.len() ==> v2[j] == v[j],
        forall|j: int| v.len() <= j < v2.len() ==> is_leaf_spec(#[trigger] v2[j]),
        forall|j: int| 0 <= j < v.len() ==> #[trigger] node_children_ok(v, j),
        slots_unique(v),
    ensures
        forall|j: int| 0 <= j < v.len() ==> #[trigger] node_children_ok(v2, j),
        slots_unique(v2),
        forall|r: int| not_a_child(v, r) && r < v.len() ==> not_a_child(v2, r),
        forall|j: int|
            0 <= j < v.len() ==> #[trigger] children_mass(v2, v2[j]) == children_mass(v, v[j])
                && children_pts(v2, v2[j]) == children_pts(v, v[j]),
        forall|j: int, q: int|
            0 <= j < v.len() && 0 <= q < 4 && #[trigger] child_at(v[j], q) is Some ==> (child_at(
                v[j],
                q,
            )->0 as int) < v.len(),
{
    assert forall|j: int, q: int|
        0 <= j < v.len() && 0 <= q < 4 && #[trigger] child_at(v[j], q) is Some implies (child_at(
        v[j],
        q,
    )->0 as int) < v.len() by {
        assert(node_children_ok(v, j));
    }
    assert forall|j: int| 0 <= j < v.len() implies #[trigger] node_children_ok(v2, j) by {
        assert(node_children_ok(v, j));
        assert forall|q: int| 0 <= q < 4 implies child_at(v2[j], q) == child_at(v[j], q) by {}
    }
    assert forall|i1: int, q1: int, i2: int, q2: int|
        0 <= i1 < v2.len() && 0 <= q1 < 4 && 0 <= i2 < v2.len() && 0 <= q2 < 4
            && #[trigger] child_at(v2[i1], q1) is Some && child_at(v2[i1], q1)
            == #[trigger] child_at(v2[i2], q2) implies i1 == i2 && q1 == q2 by {
        assert(i1 < v.len() && i2 < v.len());
        assert(child_at(v2[i1], q1) == child_at(v[i1], q1));
        assert(child_at(v2[i2], q2) == child_at(v[i2], q2));
    }
    assert forall|r: int| not_a_child(v, r) && r < v.len() implies not_a_child(v2, r) by {
        assert forall|i: int, q: int|
            0 <= i < v2.len() && 0 <= q < 4 implies #[trigger] child_at(v2[i], q) != Some(
            r as usize,
        ) by {
            if i < v.len() {
                assert(child_at(v2[i], q) == child_at(v[i], q));
                assert(child_at(v[i], q) != Some(r as usize));
            }
        }
    }
    assert forall|j: int|
        0 <= j < v.len() implies #[trigger] children_mass(v2, v2[j]) == children_mass(v, v[j])
        && children_pts(v2, v2[j]) == children_pts(v, v[j]) by {
        assert(node_children_ok(v, j));
        assert forall|slot: Option<usize>|
            slot == v[j].children[0] || slot == v[j].children[1] || slot == v[j].children[2]
                || slot == v[j].children[3] implies slot_mass(v2, slot) == slot_mass(v, slot)
            && slot_pts(v2, slot) == slot_pts(v, slot) by {
            match slot {
                Some(c) => {
                    if (c as int) < v.len() {
                        assert(v2[c as int] == v[c as int]);
                    } else if (c as int) < v2.len() {
                        assert(child_at(v[j], 0) == v[j].children[0]);
                        assert(child_at(v[j], 1) == v[j].children[1]);
                        assert(child_at(v[j], 2) == v[j].children[2]);
                        assert(child_at(v[j], 3) == v[j].children[3]);
                    }
                },
                None => {},
            }
        }
        assert(v2[j].children == v[j].children);
    }
}

/// Setting one child slot of `t` to a fresh, previously unreferenced node
/// `newc` (everything else unchanged) keeps the child structure facts, and
/// frees the slot's previous target, if any.
#[verifier::rlimit(100)]
proof fn lemma_set_slot(v: Seq<Node>, v2: Seq<Node>, t: usize, q: int, newc: usize)
    requires
        v.len() == v2.len(),
        v.len() <= usize::MAX,
        (t as int) < v.len(),
        (newc as int) < v.len(),
        newc != t,
        0 <= q < 4,
        forall|j: int| 0 <= j < v.len() && j != t as int ==> v2[j] == v[j],
        v2[t as int].center == v[t as int].center,
        v2[t as int].half_size == v[t as int].half_size,
        child_at(v2[t as int], q) == Some(newc),
        forall|qq: int|
            0 <= qq < 4 && qq != q ==> #[trigger] child_at(v2[t as int], qq) == child_at(
                v[t as int],
                qq,
            ),
        not_a_child(v, newc as int),
        forall|j: int| 0 <= j < v.len() ==> #[trigger] node_children_ok(v, j),
        slots_unique(v),
        v2[newc as int].half_size == v2[t as int].half_size / 2,
        v2[newc as int].center.x == quad_center_x(
            v2[t as int].center,
            v2[t as int].half_size / 2,
            q,
        ),
        v2[newc as int].center.y == quad_center_y(
            v2[t as int].center,
            v2[t as int].half_size / 2,
            q,
        ),
        v2[t as int].half_size == 0 ==> is_leaf_spec(v2[newc as int]),
        forall|j: int, qq: int|
            0 <= j < v.len() && 0 <= qq < 4 && #[trigger] child_at(v[j], qq) == Some(t)
                ==> v[j].half_size >= 1,
    ensures
        forall|j: int| 0 <= j < v2.len() ==> #[trigger] node_children_ok(v2, j),
        slots_unique(v2),
        forall|r: int|
            0 <= r < v.len() && not_a_child(v, r) && r != newc as int ==> not_a_child(v2, r),
        forall|oldc: usize|
            child_at(v[t as int], q) == Some(oldc) && oldc != newc ==> not_a_child(
                v2,
                oldc as int,
            ),
{
    assert forall|j: int| 0 <= j < v2.len() implies #[trigger] node_children_ok(v2, j) by {
        assert(node_children_ok(v, j));
        if j == t as int {
            assert forall|qq: int|
                0 <= qq < 4 && qq != q implies #[trigger] child_at(v2[j], qq) == child_at(
                v[j],
                qq,
            ) by {}
            assert forall|qq: int|
                0 <= qq < 4 && qq != q && #[trigger] child_at(v[j], qq) is Some implies {
                    let c = child_at(v[j], qq)->0;
                    is_leaf_spec(v2[c as int]) == is_leaf_spec(v[c as int])
                } by {
                let c = child_at(v[j], qq)->0;
                assert(child_at(v[j], qq) != Some(newc));
                assert((c as int) != j);
                assert(v2[c as int] == v[c as int]);
            }
        } else {
            assert(v2[j] == v[j]);
            assert forall|qq: int|
                0 <= qq < 4 implies #[trigger] child_at(v2[j], qq) == child_at(v[j], qq) by {}
            assert forall|qq: int|
                0 <= qq < 4 && #[trigger] child_at(v[j], qq) is Some implies {
                    let c = child_at(v[j], qq)->0;
                    (c as int) < v.len() && (c as int) != j && v2[c as int].half_size
                        == v[c as int].half_size && v2[c as int].center == v[c as int].center && (
                    v[j].half_size == 0 ==> is_leaf_spec(v2[c as int]))
                } by {
                let c = child_at(v[j], qq)->0;
                assert(child_at(v[j], qq) != Some(newc));
                if c as int == t as int {
                    assert(v[j].half_size >= 1);
                    assert(v2[c as int].half_size == v[c as int].half_size);
                    assert(v2[c as int].center == v[c as int].center);
                } else {
                    assert(v2[c as int] == v[c as int]);
                }
            }
        }
    }
    assert forall|i1: int, q1: int, i2: int, q2: int|
        0 <= i1 < v2.len() && 0 <= q1 < 4 && 0 <= i2 < v2.len() && 0 <= q2 < 4
            && #[trigger] child_at(v2[i1], q1) is Some && child_at(v2[i1], q1)
            == #[trigger] child_at(v2[i2], q2) implies i1 == i2 && q1 == q2 by {
        if child_at(v2[i1], q1) == Some(newc) {
            assert(i1 == t as int && q1 == q) by {
                if !(i1 == t as int && q1 == q) {
                    assert(child_at(v2[i1], q1) == child_at(v[i1], q1));
                    assert(child_at(v[i1], q1) != Some(newc));
                }
            }
            assert(i2 == t as int && q2 == q) by {
                if !(i2 == t as int && q2 == q) {
                    assert(child_at(v2[i2], q2) == child_at(v[i2], q2));
                    assert(child_at(v[i2], q2) != Some(newc));
                }
            }
        } else {
            assert(child_at(v2[i1], q1) == child_at(v[i1], q1)) by {
                if i1 == t as int && q1 == q {
                }
            }
            assert(child_at(v2[i2], q2) == child_at(v[i2], q2)) by {
                if i2 == t as int && q2 == q {
                }
            }
        }
    }
    assert forall|r: int|
        0 <= r < v.len() && not_a_child(v, r) && r != newc as int implies not_a_child(v2, r) by {
        assert forall|i: int, qq: int|
            0 <= i < v2.len() && 0 <= qq < 4 implies #[trigger] child_at(v2[i], qq) != Some(
            r as usize,
        ) by {
            if i == t as int && qq == q {
                assert(newc != r as usize);
            } else {
                assert(child_at(v2[i], qq) == child_at(v[i], qq));
            }
        }
    }
    assert forall|oldc: usize|
        child_at(v[t as int], q) == Some(oldc) && oldc != newc implies not_a_child(
        v2,
        oldc as int,
    ) by {
        assert forall|i: int, qq: int|
            0 <= i < v2.len() && 0 <= qq < 4 implies #[trigger] child_at(v2[i], qq) != Some(
            oldc,
        ) by {
            if i == t as int && qq == q {
            } else {
                assert(child_at(v2[i], qq) == child_at(v[i], qq));
                if child_at(v[i], qq) == Some(oldc) {
                    assert(child_at(v[i], qq) is Some && child_at(v[i], qq) == child_at(
                        v[t as int],
                        q,
                    ));
                }
            }
        }
    }
}

/// Re-centering an unreferenced leaf (only its center and half size
/// change) keeps every child structure fact and every children sum.
#[verifier::rlimit(100)]
proof fn lemma_recenter(v: Seq<Node>, v2: Seq<Node>, t: usize)
    requires
        v.len() == v2.len(),
        (t as int) < v.len(),
        forall|j: int| 0 <= j < v.len() && j != t as int ==> v2[j] == v[j],
        v2[t as int].children == v[t as int].children,
        v2[t as int].mass == v[t as int].mass,
        v2[t as int].pts == v[t as int].pts,
        is_leaf_spec(v[t as int]),
        not_a_child(v, t as int),
        forall|j: int| 0 <= j < v.len() ==> #[trigger] node_children_ok(v, j),
        slots_unique(v),
    ensures
        forall|j: int| 0 <= j < v2.len() ==> #[trigger] node_children_ok(v2, j),
        slots_unique(v2),
        forall|r: int| not_a_child(v, r) ==> not_a_child(v2, r),
        forall|j: int|
            0 <= j < v.len() ==> #[trigger] children_mass(v2, v2[j]) == children_mass(v, v[j])
                && children_pts(v2, v2[j]) == children_pts(v, v[j]),
{
    lemma_structure_frame_weak(v, v2, t);
    lemma_relink_frame(v, v2, t);
    assert(children_mass(v2, v2[t as int]) == children_mass(v, v[t as int])
        && children_pts(v2, v2[t as int]) == children_pts(v, v[t as int])) by {
        assert(child_at(v[t as int], 0) is None);
        assert(child_at(v[t as int], 1) is None);
        assert(child_at(v[t as int], 2) is None);
        assert(child_at(v[t as int], 3) is None);
    }
}

/// Like `lemma_structure_frame`, but the node `t` may change its center
/// and half size, provided it is a leaf that no slot references.
#[verifier::rlimit(100)]
proof fn lemma_structure_frame_weak(v: Seq<Node>, v2: Seq<Node>, t: usize)
    requires
        v.len() == v2.len(),
        (t as int) < v.len(),
        forall|j: int| 0 <= j < v.len() && j != t as int ==> v2[j] == v[j],
        v2[t as int].children == v[t as int].children,
        is_leaf_spec(v[t as int]),
        not_a_child(v, t as int),
        forall|j: int| 0 <= j < v.len() ==> #[trigger] node_children_ok(v, j),
        slots_unique(v),
    ensures
        forall|j: int| 0 <= j < v2.len() ==> #[trigger] node_children_ok(v2, j),
        slots_unique(v2),
        forall|r: int| not_a_child(v, r) ==> not_a_child(v2, r),
{
    assert forall|j: int| 0 <= j < v2.len() implies #[trigger] node_children_ok(v2, j) by {
        assert(node_children_ok(v, j));
        assert forall|qq: int|
            0 <= qq < 4 implies #[trigger] child_at(v2[j], qq) == child_at(v[j], qq) by {}
        if j == t as int {
            assert(child_at(v[j], 0) is None);
            assert(child_at(v[j], 1) is None);
            assert(child_at(v[j], 2) is None);
            assert(child_at(v[j], 3) is None);
        } else {
            assert forall|qq: int|
                0 <= qq < 4 && #[trigger] child_at(v[j], qq) is Some implies {
                    let c = child_at(v[j], qq)->0;
                    (c as int) < v.len() && (c as int) != j && v2[c as int].half_size
                        == v[c as int].half_size && v2[c as int].center == v[c as int].center
                        && v2[j].half_size == v[j].half_size && v2[j].center == v[j].center
                } by {
                let c = child_at(v[j], qq)->0;
                assert(child_at(v[j], qq) != Some(t));
                assert(v2[c as int] == v[c as int]);
                assert(v2[j] == v[j]);
            }
        }
    }
    assert forall|i1: int, q1: int, i2: int, q2: int|
        0 <= i1 < v2.len() && 0 <= q1 < 4 && 0 <= i2 < v2.len() && 0 <= q2 < 4
            && #[trigger] child_at(v2[i1], q1) is Some && child_at(v2[i1], q1)
            == #[trigger] child_at(v2[i2], q2) implies i1 == i2 && q1 == q2 by {
        assert(child_at(v2[i1], q1) == child_at(v[i1], q1));
        assert(child_at(v2[i2], q2) == child_at(v[i2], q2));
    }
    assert forall|r: int| not_a_child(v, r) implies not_a_child(v2, r) by {
        assert forall|i: int, qq: int|
            0 <= i < v2.len() && 0 <= qq < 4 implies #[trigger] child_at(v2[i], qq) != Some(
            r as usize,
        ) by {
            assert(child_at(v2[i], qq) == child_at(v[i], qq));
        }
    }
}

/// The empty sequence of points carries the empty multiset.
proof fn lemma_empty_pts_multiset()
    ensures
        Seq::<PointMass>::empty().to_multiset() =~= Multiset::<PointMass>::empty(),
{
    broadcast use vstd::seq_lib::group_to_multiset_ensures;
    broadcast use vstd::multiset::group_multiset_axioms;

    let s = Seq::<PointMass>::empty();
    assert(s.to_multiset().len() == 0);
    assert forall|x: PointMass| s.to_multiset().count(x) == 0 by {
        assert(!s.contains(x));
    }
}

/// Mid-insertion shape: every internal node's aggregates equal its
/// children's, except `cur`, whose aggregates already hold the pending
/// point `p` that its children do not yet record.
pub open spec fn gap_ok(v: Seq<Node>, cur: int, p: PointMass) -> bool {
    &&& forall|i: int|
        0 <= i < v.len() && i != cur && !is_leaf_spec(v[i]) ==> v[i].mass as int
            == #[trigger] children_mass(v, v[i]) && v[i].pts@.to_multiset() == children_pts(v, v[i])
    &&& !is_leaf_spec(v[cur]) ==> v[cur].mass as int == children_mass(v, v[cur]) + p.mass
        && v[cur].pts@.to_multiset() == children_pts(v, v[cur]).insert(p)
}

/// The facts that hold when every point has its own leaf: an internal
/// node's mass and points are exactly those of its children, every node but
/// the root records at least one point, and a non-empty tree has an
/// internal root.
pub open spec fn resolved_ok(v: Seq<Node>, root: int, inserted: Seq<PointMass>) -> bool {
    &&& forall|i: int|
        0 <= i < v.len() && !is_leaf_spec(v[i]) ==> v[i].mass as int == #[trigger] children_mass(
            v,
            v[i],
        ) && v[i].pts@.to_multiset() == children_pts(v, v[i])
    &&& forall|i: int| 0 <= i < v.len() && i != root ==> (#[trigger] v[i]).pts@.len() >= 1
    &&& inserted.len() >= 1 ==> !is_leaf_spec(v[root])
}

/// Sum of the masses of a sequence of nodes.
pub open spec fn bodies_mass(s: Seq<Node>) -> int
    decreases s.len(),
{
    if s.len() == 0 {
        0
    } else {
        bodies_mass(s.drop_last()) + s.last().mass
    }
}

/// Sum of the masses of the nodes named by a stack of arena indices.
pub open spec fn stack_mass(v: Seq<Node>, st: Seq<usize>) -> int
    decreases st.len(),
{
    if st.len() == 0 {
        0
    } else {
        stack_mass(v, st.drop_last()) + (if (st.last() as int) < v.len() {
            v[st.last() as int].mass as int
        } else {
            0
        })
    }
}

/// The points of a sequence of nodes, as one multiset.
pub open spec fn bodies_pts(s: Seq<Node>) -> Multiset<PointMass>
    decreases s.len(),
{
    if s.len() == 0 {
        Multiset::empty()
    } else {
        bodies_pts(s.drop_last()).add(s.last().pts@.to_multiset())
    }
}

/// The points of the nodes named by a stack of arena indices.
pub open spec fn stack_pts(v: Seq<Node>, st: Seq<usize>) -> Multiset<PointMass>
    decreases st.len(),
{
    if st.len() == 0 {
        Multiset::empty()
    } else {
        stack_pts(v, st.drop_last()).add(
            if (st.last() as int) < v.len() {
                v[st.last() as int].pts@.to_multiset()
            } else {
                Multiset::empty()
            },
        )
    }
}

/// Whether the stack holds the index `x`.
pub open spec fn in_stack(st: Seq<usize>, x: int) -> bool {
    exists|k: int| 0 <= k < st.len() && (#[trigger] st[k]) as int == x
}

/// Quadrant index over bare coordinates: the same two deciding
/// comparisons as `quad_of`.
pub open spec fn quad_sel(cx: int, cy: int, px: int, py: int) -> int {
    if px > cx {
        if py > cy {
            2int
        } else {
            1int
        }
    } else {
        if py > cy {
            3int
        } else {
            0int
        }
    }
}

/// X coordinate of the child region center with quadrant index `q`, over
/// bare coordinates: the same table as `quad_center_x`.
pub open spec fn shift_x(cx: int, h: int, q: int) -> int {
    if q == 0 {
        cx - h
    } else if q == 1 {
        cx + h
    } else if q == 2 {
        cx + h
    } else {
        cx - h
    }
}

/// Y coordinate of the child region center with quadrant index `q`.
pub open spec fn shift_y(cy: int, h: int, q: int) -> int {
    if q == 0 {
        cy - h
    } else if q == 1 {
        cy - h
    } else if q == 2 {
        cy + h
    } else {
        cy + h
    }
}

/// Whether the promotion cascade started by a collision ends with both
/// points in leaves of their own: the region centered at `(kcx, kcy)` with
/// half size `kh` holds the single point `(lpx, lpy)` when `(px, py)`
/// arrives. The cascade resolves as soon as the two points fall into
/// different quadrants, and fails if the region shrinks to half size zero
/// first.
pub open spec fn promo_resolves(
    kcx: int,
    kcy: int,
    kh: int,
    lpx: int,
    lpy: int,
    px: int,
    py: int,
) -> bool
    decreases kh,
{
    if kh <= 0 {
        false
    } else if quad_sel(kcx, kcy, px, py) != quad_sel(kcx, kcy, lpx, lpy) {
        true
    } else {
        promo_resolves(
            shift_x(kcx, kh / 2, quad_sel(kcx, kcy, lpx, lpy)),
            shift_y(kcy, kh / 2, quad_sel(kcx, kcy, lpx, lpy)),
            kh / 2,
            lpx,
            lpy,
            px,
            py,
        )
    }
}

/// Whether the insertion walk for `p`, descending from `cur`, ends with
/// the point in a leaf of its own: it does when it reaches an empty slot,
/// or a leaf whose promotion cascade separates the two points; it fails on
/// a degenerate region of half size zero. (The region-shrink guards never
/// fire on a well-formed tree; they only keep the walk well founded.)
pub open spec fn descent_completes(v: Seq<Node>, cur: int, p: Vec2i) -> bool
    decreases
            (if 0 <= cur < v.len() {
                v[cur].half_size as int
            } else {
                0int
            }),
{
    if !(0 <= cur < v.len()) {
        false
    } else if v[cur].half_size <= 0 {
        false
    } else {
        let q = quad_sel(v[cur].center.x as int, v[cur].center.y as int, p.x as int, p.y as int);
        match child_at(v[cur], q) {
            None => true,
            Some(c) => if !((c as int) < v.len()) {
                false
            } else if is_leaf_spec(v[c as int]) {
                promo_resolves(
                    v[c as int].center.x as int,
                    v[c as int].center.y as int,
                    v[c as int].half_size as int,
                    v[c as int].pos.x as int,
                    v[c as int].pos.y as int,
                    p.x as int,
                    p.y as int,
                )
            } else if !(0 <= v[c as int].half_size < v[cur].half_size) {
                false
            } else {
                descent_completes(v, c as int, p)
            },
        }
    }
}

/// Two arenas agreeing on every child slot, center and half size — and,
/// for leaves, position — walk the same way.
proof fn lemma_descent_frame(v: Seq<Node>, v2: Seq<Node>, cur: int, p: Vec2i)
    requires
        v.len() == v2.len(),
        forall|j: int|
            0 <= j < v.len() ==> (#[trigger] v2[j]).children == v[j].children && v2[j].center
                == v[j].center && v2[j].half_size == v[j].half_size && (is_leaf_spec(v[j])
                ==> v2[j].pos == v[j].pos),
    ensures
        descent_completes(v, cur, p) == descent_completes(v2, cur, p),
    decreases
            (if 0 <= cur < v.len() {
                v[cur].half_size as int
            } else {
                0int
            }),
{
    if 0 <= cur < v.len() && v[cur].half_size > 0 {
        let q = quad_sel(v[cur].center.x as int, v[cur].center.y as int, p.x as int, p.y as int);
        assert(v2[cur].center == v[cur].center);
        assert(child_at(v2[cur], q) == child_at(v[cur], q));
        match child_at(v[cur], q) {
            Some(c) => {
                if (c as int) < v.len() {
                    assert(is_leaf_spec(v2[c as int]) == is_leaf_spec(v[c as int]));
                    if is_leaf_spec(v[c as int]) {
                        assert(v2[c as int].pos == v[c as int].pos);
                    } else if 0 <= v[c as int].half_size < v[cur].half_size {
                        lemma_descent_frame(v, v2, c as int, p);
                    }
                }
            },
            None => {},
        }
    }
}

/// The child slot of an expanded root that receives the old root: the
/// quadrant diagonally opposite the direction of growth, decided by the
/// same two comparisons as the quadrant test, against the old root's
/// center.
pub open spec fn growth_slot(center: Vec2i, p: Vec2i) -> int {
    if p.x < center.x {
        if p.y < center.y {
            2int
        } else {
            1int
        }
    } else {
        if p.y < center.y {
            3int
        } else {
            0int
        }
    }
}

/// The accept test of the traversal: the region looks small against its
/// distance. With `d` the exact distance from the node's center of mass
/// to `pos` and the threshold `t` counted in thousandths (`THETA_ONE` is
/// the ratio 1), the test is `2 * half_size / d < t / THETA_ONE`, written
/// without division or roots over the weighted sums; a node whose center
/// of mass coincides with `pos` is never far.
pub open spec fn far_spec(n: Node, pos: Vec2i, t: u64) -> bool {
    let dx = n.com_x - (n.mass as int) * pos.x;
    let dy = n.com_y - (n.mass as int) * pos.y;
    let lhs = 2 * n.half_size * n.mass * THETA_ONE;
    lhs * lhs < (t as int) * (t as int) * (dx * dx + dy * dy)
}

impl QuadTree {
    /// Side length of the covered square.
    pub open spec fn side(self) -> int {
        self.bounds[1].x - self.bounds[0].x
    }

    /// The square bounds are consistent: equal side lengths on both axes,
    /// an even side within range, corners in range, and the root's region
    /// is exactly the bounded square.
    pub open spec fn bounds_ok(self) -> bool {
        let v = self.vec@;
        let b0 = self.bounds[0];
        let b1 = self.bounds[1];
        &&& b1.x - b0.x == b1.y - b0.y
        &&& b0.x <= b1.x
        &&& (b1.x - b0.x) % 2 == 0
        &&& b1.x - b0.x <= SIDE_CAP
        &&& b0.x >= -(COORD_LIMIT + (b1.x - b0.x))
        &&& b1.x <= COORD_LIMIT + (b1.x - b0.x)
        &&& b0.y >= -(COORD_LIMIT + (b1.x - b0.x))
        &&& b1.y <= COORD_LIMIT + (b1.x - b0.x)
        &&& v[self.root as int].half_size * 2 == b1.x - b0.x
        &&& v[self.root as int].half_size > 0
        &&& v[self.root as int].center.x * 2 == b0.x + b1.x
        &&& v[self.root as int].center.y * 2 == b0.y + b1.y
    }

    /// Well-formedness of the whole tree.
    pub open spec fn wf(self) -> bool {
        let v = self.vec@;
        &&& 0 < v.len()
        &&& (self.root as int) < v.len()
        &&& nodes_ok(v)
        &&& not_a_child(v, self.root as int)
        &&& self.bounds_ok()
        &&& v[self.root as int].pts@ == self.inserted@
        &&& is_leaf_spec(v[self.root as int]) ==> self.inserted@.len() == 0
        &&& self.complete@ ==> resolved_ok(v, self.root as int, self.inserted@)
    }

    /// Total mass of the tree: the root's aggregate mass.
    pub open spec fn total_mass(self) -> int {
        self.vec@[self.root as int].mass as int
    }

    /// Mass-weighted x sum of the tree: the root's aggregate.
    pub open spec fn total_weighted_x(self) -> int {
        self.vec@[self.root as int].com_x as int
    }

    /// Mass-weighted y sum of the tree: the root's aggregate.
    pub open spec fn total_weighted_y(self) -> int {
        self.vec@[self.root as int].com_y as int
    }

    /// Whether `position` lies within the covered square (boundary
    /// included).
    pub open spec fn contains_spec(self, position: Vec2i) -> bool {
        &&& self.bounds[0].x <= position.x <= self.bounds[1].x
        &&& self.bounds[0].y <= position.y <= self.bounds[1].y
    }

    /// Construct a new quadtree covering the square with the given center
    /// and half size, holding a single empty leaf root.
    pub fn new(center: Vec2i, half_size: i64) -> (t: QuadTree)
        requires
            0 < half_size <= COORD_LIMIT,
            -COORD_LIMIT <= center.x <= COORD_LIMIT,
            -COORD_LIMIT <= center.y <= COORD_LIMIT,
        ensures
            t.wf(),
            t.inserted@ =~= Seq::<PointMass>::empty(),
            t.complete@,
            t.total_mass() == 0,
            t.bounds[0].x == center.x - half_size,
            t.bounds[0].y == center.y - half_size,
            t.bounds[1].x == center.x + half_size,
            t.bounds[1].y == center.y + half_size,
            t.vec@.len() == 1,
            t.root == 0,
            is_leaf_spec(t.vec@[0]),
            t.vec@[0].center == center,
            t.vec@[0].half_size == half_size,
            t.vec@[0].mass == 0,
            t.vec@[0].com_x == 0,
            t.vec@[0].com_y == 0,
            t.vec@[0].pos == center,
            t.vec@[0].pts@ =~= Seq::<PointMass>::empty(),
            t.total_weighted_x() == 0,
            t.total_weighted_y() == 0,
    {
        let xy1 = Vec2i { x: center.x - half_size, y: center.y - half_size };
        let xy2 = Vec2i { x: center.x + half_size, y: center.y + half_size };
        let root_node = Node {
            children: [None, None, None, None],
            mass: 0,
            center,
            half_size,
            com_x: 0,
            com_y: 0,
            pos: center,
            pts: Ghost(Seq::empty()),
        };
        let mut v: Vec<Node> = Vec::new();
        v.push(root_node);
        let t = QuadTree {
            vec: v,
            bounds: [xy1, xy2],
            root: 0,
            inserted: Ghost(Seq::empty()),
            complete: Ghost(true),
        };
        proof {
            assert(t.vec@.len() == 1);
            assert(t.vec@[0] == root_node);
        }
        t
    }

    /// Whether `position` is inside the bounds of this quadtree.
    pub fn in_bounds(&self, position: Vec2i) -> (r: bool)
        ensures
            r == self.contains_spec(position),
    {
        if position.x < self.bounds[0].x {
            return false;
        }
        if self.bounds[1].x < position.x {
            return false;
        }
        if position.y < self.bounds[0].y {
            return false;
        }
        if self.bounds[1].y < position.y {
            return false;
        }
        true
    }

    /// Expand one just-popped internal node of the walk: push every
    /// present child onto the stack and record the node as expanded. The
    /// slot-uniqueness and root-is-no-child facts of `wf` guarantee the
    /// children are new to the walk, which bounds it.
    #[verifier::rlimit(100)]
    #[verifier::spinoff_prover]
    fn push_children(
        &self,
        i: usize,
        to_visit: &mut Vec<usize>,
        Ghost(expanded): Ghost<Set<int>>,
        Ghost(taken): Ghost<Set<int>>,
    ) -> (r: Ghost<Set<int>>)
        requires
            self.wf(),
            (i as int) < self.vec@.len(),
            !is_leaf_spec(self.vec@[i as int]),
            forall|k: int|
                0 <= k < old(to_visit)@.len() ==> ((#[trigger] old(to_visit)@[k]) as int)
                    < self.vec@.len(),
            old(to_visit)@.no_duplicates(),
            forall|k: int|
                0 <= k < old(to_visit)@.len() ==> !expanded.contains(
                    (#[trigger] old(to_visit)@[k]) as int,
                ) && !taken.contains((old(to_visit)@[k]) as int),
            expanded.finite(),
            forall|x: int|
                #[trigger] expanded.contains(x) ==> 0 <= x < self.vec@.len() && !taken.contains(
                    x,
                ),
            forall|x: int| #[trigger] taken.contains(x) ==> 0 <= x < self.vec@.len(),
            !expanded.contains(i as int),
            !taken.contains(i as int),
            !in_stack(old(to_visit)@, i as int),
            forall|x: int|
                #![trigger in_stack(old(to_visit)@, x)]
                #![trigger expanded.contains(x)]
                #![trigger taken.contains(x)]
                in_stack(old(to_visit)@, x) || expanded.contains(x) || taken.contains(x) || x == i
                    as int ==> x == self.root as int || (exists|pj: int, pq: int|
                    0 <= pj < self.vec@.len() && 0 <= pq < 4 && expanded.contains(pj)
                        && #[trigger] child_at(self.vec@[pj], pq) == Some(x as usize)),
        ensures
            r@ == expanded.insert(i as int),
            r@.finite(),
            r@.len() == expanded.len() + 1,
            old(to_visit)@.len() + 1 <= final(to_visit)@.len() <= old(to_visit)@.len() + 4,
            forall|k: int|
                0 <= k < final(to_visit)@.len() ==> ((#[trigger] final(to_visit)@[k]) as int)
                    < self.vec@.len(),
            final(to_visit)@.no_duplicates(),
            forall|k: int|
                0 <= k < final(to_visit)@.len() ==> !r@.contains(
                    (#[trigger] final(to_visit)@[k]) as int,
                ) && !taken.contains((final(to_visit)@[k]) as int),
            forall|x: int|
                #[trigger] r@.contains(x) ==> 0 <= x < self.vec@.len() && !taken.contains(x),
            forall|x: int|
                #![trigger in_stack(final(to_visit)@, x)]
                #![trigger r@.contains(x)]
                #![trigger taken.contains(x)]
                in_stack(final(to_visit)@, x) || r@.contains(x) || taken.contains(x) ==> x
                    == self.root as int || (exists|pj: int, pq: int|
                    0 <= pj < self.vec@.len() && 0 <= pq < 4 && r@.contains(pj)
                        && #[trigger] child_at(self.vec@[pj], pq) == Some(x as usize)),
            stack_mass(self.vec@, final(to_visit)@) == stack_mass(self.vec@, old(to_visit)@)
                + children_mass(self.vec@, self.vec@[i as int]),
            stack_pts(self.vec@, final(to_visit)@) == stack_pts(self.vec@, old(to_visit)@).add(
                children_pts(self.vec@, self.vec@[i as int]),
            ),
    {
        let ghost v = self.vec@;
        let ghost r_root = self.root as int;
        let ghost st_in = to_visit@;
        let ghost ex2 = expanded.insert(i as int);
        let node = self.vec[i];
        proof {
            assert(node_children_ok(v, i as int));
            assert(child_at(v[i as int], 0) == node.children[0]);
            assert(child_at(v[i as int], 1) == node.children[1]);
            assert(child_at(v[i as int], 2) == node.children[2]);
            assert(child_at(v[i as int], 3) == node.children[3]);
            assert(partial_mass(v, node, 0) == 0);
            assert(partial_pts(v, node, 0) =~= Multiset::<PointMass>::empty());
            assert(stack_mass(v, to_visit@) == stack_mass(v, st_in) + partial_mass(v, node, 0));
            assert(stack_pts(v, to_visit@) =~= stack_pts(v, st_in).add(
                partial_pts(v, node, 0),
            ));
        }
        let mut qi: usize = 0;
        while qi < 4
            invariant
                self.wf(),
                v == self.vec@,
                r_root == self.root as int,
                ex2 == expanded.insert(i as int),
                qi <= 4,
                (i as int) < v.len(),
                node == v[i as int],
                !is_leaf_spec(node),
                !expanded.contains(i as int),
                !taken.contains(i as int),
                expanded.finite(),
                forall|x: int|
                    #[trigger] expanded.contains(x) ==> 0 <= x < v.len() && !taken.contains(x),
                forall|x: int| #[trigger] taken.contains(x) ==> 0 <= x < v.len(),
                forall|k: int|
                    0 <= k < to_visit@.len() ==> ((#[trigger] to_visit@[k]) as int) < v.len(),
                to_visit@.no_duplicates(),
                forall|k: int|
                    0 <= k < to_visit@.len() ==> !ex2.contains((#[trigger] to_visit@[k]) as int)
                        && !taken.contains((to_visit@[k]) as int),
                // the claims of the walk so far, over the old expanded set
                forall|x: int|
                    #![trigger in_stack(st_in, x)]
                    #![trigger expanded.contains(x)]
                    #![trigger taken.contains(x)]
                    in_stack(st_in, x) || expanded.contains(x) || taken.contains(x) || x == i
                        as int ==> x == r_root || (exists|pj: int, pq: int|
                        0 <= pj < v.len() && 0 <= pq < 4 && expanded.contains(pj)
                            && #[trigger] child_at(v[pj], pq) == Some(x as usize)),
                !in_stack(st_in, i as int),
                // stack membership: old members, or children of `i` already
                // handled
                forall|x: int|
                    #![trigger in_stack(to_visit@, x)]
                    in_stack(to_visit@, x) ==> in_stack(st_in, x) || (exists|pq: int|
                        0 <= pq < qi && #[trigger] child_at(v[i as int], pq) == Some(
                            x as usize,
                        )),
                forall|x: int| #[trigger] in_stack(st_in, x) ==> in_stack(to_visit@, x),
                st_in.len() <= to_visit@.len() <= st_in.len() + qi,
                to_visit@.len() > st_in.len() || (forall|pq: int|
                    0 <= pq < qi ==> #[trigger] child_at(node, pq) is None),
                stack_mass(v, to_visit@) == stack_mass(v, st_in) + partial_mass(
                    v,
                    node,
                    qi as int,
                ),
                stack_pts(v, to_visit@) == stack_pts(v, st_in).add(partial_pts(
                    v,
                    node,
                    qi as int,
                )),
            decreases 4 - qi,
        {
            let slot = node.children[qi];
            proof {
                assert(child_at(v[i as int], qi as int) == node.children[qi as int]);
            }
            match slot {
                Some(c) => {
                    proof {
                        assert(node_children_ok(v, i as int));
                        assert((c as int) < v.len());
                        assert((c as int) != i as int);
                        // the child is new to the walk
                        assert(!in_stack(to_visit@, c as int) && !expanded.contains(c as int)
                            && !taken.contains(c as int) && c as int != i as int) by {
                            if in_stack(to_visit@, c as int) || expanded.contains(c as int)
                                || taken.contains(c as int) {
                                if in_stack(to_visit@, c as int) && !in_stack(st_in, c as int) {
                                    // a sibling pushed in this call: its slot
                                    // would equal this one
                                    let pq = choose|pq: int|
                                        0 <= pq < qi && #[trigger] child_at(v[i as int], pq)
                                            == Some(c);
                                    assert(child_at(v[i as int], pq) is Some && child_at(
                                        v[i as int],
                                        pq,
                                    ) == child_at(v[i as int], qi as int));
                                    assert(false);
                                } else {
                                    // known to the walk before this call: its
                                    // unique parent would already be expanded
                                    assert(in_stack(st_in, c as int) || expanded.contains(
                                        c as int,
                                    ) || taken.contains(c as int));
                                    if c as int == r_root {
                                        assert(not_a_child(v, r_root));
                                        assert(child_at(v[i as int], qi as int) != Some(
                                            self.root,
                                        ));
                                        assert(false);
                                    } else {
                                        let (pj, pq) = choose|pj: int, pq: int|
                                            0 <= pj < v.len() && 0 <= pq < 4
                                                && expanded.contains(pj) && #[trigger] child_at(
                                                v[pj],
                                                pq,
                                            ) == Some(c);
                                        assert(child_at(v[pj], pq) is Some && child_at(
                                            v[pj],
                                            pq,
                                        ) == child_at(v[i as int], qi as int));
                                        assert(pj == i as int);
                                        assert(expanded.contains(i as int));
                                        assert(false);
                                    }
                                }
                            }
                        }
                    }
                    let ghost stb = to_visit@;
                    to_visit.push(c);
                    proof {
                        assert(to_visit@.drop_last() =~= stb);
                        assert(to_visit@.last() == c);
                        assert(stack_mass(v, to_visit@) == stack_mass(v, stb) + v[c
                            as int].mass);
                        assert(stack_pts(v, to_visit@) =~= stack_pts(v, stb).add(
                            v[c as int].pts@.to_multiset(),
                        ));
                        assert(partial_mass(v, node, qi as int + 1) == partial_mass(
                            v,
                            node,
                            qi as int,
                        ) + slot_mass(v, child_at(node, qi as int)));
                        assert(partial_pts(v, node, qi as int + 1) =~= partial_pts(
                            v,
                            node,
                            qi as int,
                        ).add(slot_pts(v, child_at(node, qi as int))));
                        assert(slot_mass(v, child_at(node, qi as int)) == v[c as int].mass);
                        assert(slot_pts(v, child_at(node, qi as int)) == v[c
                            as int].pts@.to_multiset());
                        assert(stack_pts(v, to_visit@) =~= stack_pts(v, st_in).add(partial_pts(
                            v,
                            node,
                            qi as int + 1,
                        )));
                        // membership updates
                        assert forall|x: int|
                            in_stack(to_visit@, x) implies in_stack(st_in, x) || (exists|pq: int|
                            0 <= pq < qi + 1 && #[trigger] child_at(v[i as int], pq) == Some(
                                x as usize,
                            )) by {
                            if x == c as int {
                                assert(child_at(v[i as int], qi as int) == Some(c));
                            } else {
                                let k = choose|k: int|
                                    0 <= k < to_visit@.len() && (#[trigger] to_visit@[k]) as int
                                        == x;
                                assert(k < stb.len());
                                assert(in_stack(stb, x));
                            }
                        }
                        assert forall|x: int| in_stack(st_in, x) implies in_stack(
                            to_visit@,
                            x,
                        ) by {
                            if in_stack(st_in, x) {
                                assert(in_stack(stb, x));
                                let k = choose|k: int|
                                    0 <= k < stb.len() && (#[trigger] stb[k]) as int == x;
                                assert(to_visit@[k] as int == x);
                            }
                        }
                    }
                },
                None => {
                    proof {
                        assert(partial_mass(v, node, qi as int + 1) == partial_mass(
                            v,
                            node,
                            qi as int,
                        ) + slot_mass(v, child_at(node, qi as int)));
                        assert(partial_pts(v, node, qi as int + 1) =~= partial_pts(
                            v,
                            node,
                            qi as int,
                        ).add(slot_pts(v, child_at(node, qi as int))));
                        assert(slot_mass(v, child_at(node, qi as int)) == 0);
                        assert(slot_pts(v, child_at(node, qi as int))
                            =~= Multiset::<PointMass>::empty());
                    }
                },
            }
            qi = qi + 1;
        }
        proof {
            // an internal node pushed at least one child
            assert(to_visit@.len() > st_in.len()) by {
                if to_visit@.len() <= st_in.len() {
                    assert(child_at(node, 0) is None && child_at(node, 1) is None && child_at(
                        node,
                        2,
                    ) is None && child_at(node, 3) is None);
                    assert(is_leaf_spec(node));
                }
            }
            assert(partial_mass(v, node, 1) == partial_mass(v, node, 0) + slot_mass(
                v,
                child_at(node, 0),
            ));
            assert(partial_mass(v, node, 2) == partial_mass(v, node, 1) + slot_mass(
                v,
                child_at(node, 1),
            ));
            assert(partial_mass(v, node, 3) == partial_mass(v, node, 2) + slot_mass(
                v,
                child_at(node, 2),
            ));
            assert(partial_mass(v, node, 4) == partial_mass(v, node, 3) + slot_mass(
                v,
                child_at(node, 3),
            ));
            assert(partial_mass(v, node, 4) == children_mass(v, v[i as int]));
            assert(partial_pts(v, node, 1) =~= partial_pts(v, node, 0).add(slot_pts(
                v,
                child_at(node, 0),
            )));
            assert(partial_pts(v, node, 2) =~= partial_pts(v, node, 1).add(slot_pts(
                v,
                child_at(node, 1),
            )));
            assert(partial_pts(v, node, 3) =~= partial_pts(v, node, 2).add(slot_pts(
                v,
                child_at(node, 2),
            )));
            assert(partial_pts(v, node, 4) =~= partial_pts(v, node, 3).add(slot_pts(
                v,
                child_at(node, 3),
            )));
            assert(partial_pts(v, node, 4) =~= children_pts(v, v[i as int]));
            vstd::set::axiom_set_insert_len(expanded, i as int);
            // the claims over the grown expanded set
            assert forall|x: int|
                #![trigger in_stack(to_visit@, x)]
                #![trigger ex2.contains(x)]
                #![trigger taken.contains(x)]
                in_stack(to_visit@, x) || ex2.contains(x) || taken.contains(x) implies x == r_root
                || (exists|pj: int, pq: int|
                0 <= pj < v.len() && 0 <= pq < 4 && ex2.contains(pj) && #[trigger] child_at(
                    v[pj],
                    pq,
                ) == Some(x as usize)) by {
                if in_stack(to_visit@, x) && !in_stack(st_in, x) {
                    let pq = choose|pq: int|
                        0 <= pq < 4 && #[trigger] child_at(v[i as int], pq) == Some(x as usize);
                    assert(ex2.contains(i as int));
                } else if x != r_root {
                    assert(in_stack(st_in, x) || expanded.contains(x) || taken.contains(x) || x
                        == i as int);
                    let (pj, pq) = choose|pj: int, pq: int|
                        0 <= pj < v.len() && 0 <= pq < 4 && expanded.contains(pj)
                            && #[trigger] child_at(v[pj], pq) == Some(x as usize);
                    assert(ex2.contains(pj));
                }
            }
        }
        Ghost(ex2)
    }

    /// Collect the bodies that can be used to calculate forces on a body
    /// at `position`. A visited node that is far enough for the threshold
    /// (counted in thousandths: `THETA_ONE` is the ratio 1), or a leaf, is
    /// returned as one aggregate body; any other node is expanded into its
    /// children. With a threshold of 0 exactly the
    /// leaves come back; when every point has its own leaf, the returned
    /// bodies carry exactly the inserted points and their masses add up to
    /// the tree's total mass. The frontier is minimal: every returned body
    /// other than the root sits under a parent that was expanded because
    /// it was neither far enough nor a leaf. A query before any insertion
    /// is a usage error, rejected here at the boundary.
    #[verifier::rlimit(100)]
    #[verifier::spinoff_prover]
    pub fn collect_bodies(&self, position: Vec2i, theta_threshold: u64) -> (bodies: Vec<Node>)
        requires
            self.wf(),
            self.inserted@.len() >= 1,
            -COORD_LIMIT <= position.x <= COORD_LIMIT,
            -COORD_LIMIT <= position.y <= COORD_LIMIT,
            theta_threshold <= THETA_LIMIT,
        ensures
            1 <= bodies@.len() <= self.vec@.len(),
            forall|k: int| 0 <= k < bodies@.len() ==> node_local_ok(#[trigger] bodies@[k]),
            forall|k: int|
                0 <= k < bodies@.len() ==> is_leaf_spec(#[trigger] bodies@[k]) || far_spec(
                    bodies@[k],
                    position,
                    theta_threshold,
                ),
            theta_threshold == 0 ==> forall|k: int|
                0 <= k < bodies@.len() ==> is_leaf_spec(#[trigger] bodies@[k]),
            bodies_mass(bodies@) <= self.total_mass(),
            self.complete@ ==> bodies_mass(bodies@) == self.total_mass(),
            self.complete@ ==> bodies_pts(bodies@) == self.inserted@.to_multiset(),
            self.complete@ && theta_threshold == 0 ==> bodies@.len() == self.inserted@.len() && (
            forall|k: int| 0 <= k < bodies@.len() ==> (#[trigger] bodies@[k]).pts@.len() == 1),
            is_leaf_spec(self.vec@[self.root as int]) || far_spec(
                self.vec@[self.root as int],
                position,
                theta_threshold,
            ) ==> bodies@ == seq![self.vec@[self.root as int]],
            forall|k: int|
                0 <= k < bodies@.len() ==> exists|i: int|
                    0 <= i < self.vec@.len() && #[trigger] bodies@[k] == self.vec@[i] && (i
                        == self.root as int || (exists|pj: int, pq: int|
                        0 <= pj < self.vec@.len() && 0 <= pq < 4 && #[trigger] child_at(
                            self.vec@[pj],
                            pq,
                        ) == Some(i as usize) && !is_leaf_spec(self.vec@[pj]) && !far_spec(
                            self.vec@[pj],
                            position,
                            theta_threshold,
                        ))),
    {
        let ghost v = self.vec@;
        let ghost r = self.root as int;
        let mut bodies: Vec<Node> = Vec::new();
        let mut to_visit: Vec<usize> = Vec::new();
        to_visit.push(self.root);
        let ghost mut expanded: Set<int> = Set::empty();
        let ghost mut taken: Set<int> = Set::empty();
        let ghost mut taken_seq: Seq<int> = Seq::empty();
        proof {
            assert(to_visit@ =~= seq![self.root]);
            assert(to_visit@.drop_last() =~= Seq::<usize>::empty());
            assert(stack_mass(v, Seq::<usize>::empty()) == 0);
            assert(stack_mass(v, to_visit@) == v[r].mass);
            assert(stack_pts(v, Seq::<usize>::empty()) =~= Multiset::<PointMass>::empty());
            assert(stack_pts(v, to_visit@) =~= v[r].pts@.to_multiset());
            assert(bodies_mass(bodies@) == 0);
            assert(bodies_pts(bodies@) =~= Multiset::<PointMass>::empty());
            assert(in_stack(to_visit@, r) ==> true);
        }
        while to_visit.len() > 0
            invariant
                self.wf(),
                self.inserted@.len() >= 1,
                -COORD_LIMIT <= position.x <= COORD_LIMIT,
                -COORD_LIMIT <= position.y <= COORD_LIMIT,
                theta_threshold <= THETA_LIMIT,
                v == self.vec@,
                r == self.root as int,
                forall|k: int|
                    0 <= k < to_visit@.len() ==> ((#[trigger] to_visit@[k]) as int) < v.len(),
                to_visit@.no_duplicates(),
                forall|k: int|
                    0 <= k < to_visit@.len() ==> !expanded.contains(
                        (#[trigger] to_visit@[k]) as int,
                    ) && !taken.contains((to_visit@[k]) as int),
                expanded.finite(),
                taken.finite(),
                expanded.len() <= v.len(),
                forall|x: int|
                    #[trigger] expanded.contains(x) ==> 0 <= x < v.len() && !taken.contains(x),
                forall|x: int| #[trigger] taken.contains(x) ==> 0 <= x < v.len(),
                bodies@.len() == taken.len(),
                taken_seq.len() == bodies@.len(),
                forall|k: int|
                    0 <= k < taken_seq.len() ==> 0 <= #[trigger] taken_seq[k] < v.len()
                        && bodies@[k] == v[taken_seq[k]] && (taken_seq[k] == r || (exists|
                        pj: int,
                        pq: int,
                    |
                        0 <= pj < v.len() && 0 <= pq < 4 && expanded.contains(pj)
                            && #[trigger] child_at(v[pj], pq) == Some(taken_seq[k] as usize))),
                forall|x: int|
                    #[trigger] expanded.contains(x) ==> !is_leaf_spec(v[x]) && !far_spec(
                        v[x],
                        position,
                        theta_threshold,
                    ),
                forall|x: int|
                    #![trigger in_stack(to_visit@, x)]
                    #![trigger expanded.contains(x)]
                    #![trigger taken.contains(x)]
                    in_stack(to_visit@, x) || expanded.contains(x) || taken.contains(x) ==> x == r
                        || (exists|pj: int, pq: int|
                        0 <= pj < v.len() && 0 <= pq < 4 && expanded.contains(pj)
                            && #[trigger] child_at(v[pj], pq) == Some(x as usize)),
                bodies_mass(bodies@) + stack_mass(v, to_visit@) <= self.total_mass(),
                self.complete@ ==> bodies_mass(bodies@) + stack_mass(v, to_visit@)
                    == self.total_mass(),
                self.complete@ ==> bodies_pts(bodies@).add(stack_pts(v, to_visit@))
                    == self.inserted@.to_multiset(),
                forall|k: int|
                    0 <= k < bodies@.len() ==> node_local_ok(#[trigger] bodies@[k]) && (
                    is_leaf_spec(bodies@[k]) || far_spec(bodies@[k], position, theta_threshold)),
                theta_threshold == 0 ==> forall|k: int|
                    0 <= k < bodies@.len() ==> is_leaf_spec(#[trigger] bodies@[k]),
                self.complete@ && theta_threshold == 0 ==> forall|k: int|
                    0 <= k < bodies@.len() ==> (#[trigger] bodies@[k]).pts@.len() == 1,
                bodies@.len() + to_visit@.len() >= 1,
                is_leaf_spec(v[r]) || far_spec(v[r], position, theta_threshold) ==> ((bodies@
                    =~= Seq::<Node>::empty()) && to_visit@ =~= seq![self.root]) || ((bodies@
                    =~= seq![v[r]]) && to_visit@.len() == 0),
            decreases to_visit@.len() + 4 * (v.len() - expanded.len()),
        {
            let ghost st0 = to_visit@;
            let iopt = to_visit.pop();
            let i = iopt.unwrap();
            proof {
                assert(st0.drop_last() =~= to_visit@);
                assert(i == st0.last());
                assert(st0[st0.len() - 1] == i);
                assert(in_stack(st0, i as int));
                assert(!expanded.contains(i as int) && !taken.contains(i as int));
                assert(!in_stack(to_visit@, i as int)) by {
                    if in_stack(to_visit@, i as int) {
                        let k = choose|k: int|
                            0 <= k < to_visit@.len() && (#[trigger] to_visit@[k]) as int == i
                                as int;
                        assert(st0[k] == st0[st0.len() - 1]);
                    }
                }
                assert(stack_mass(v, st0) == stack_mass(v, to_visit@) + v[i as int].mass);
                assert(stack_pts(v, st0) =~= stack_pts(v, to_visit@).add(
                    v[i as int].pts@.to_multiset(),
                ));
                assert forall|x: int|
                    #[trigger] in_stack(to_visit@, x) implies in_stack(st0, x) by {
                    let k = choose|k: int|
                        0 <= k < to_visit@.len() && (#[trigger] to_visit@[k]) as int == x;
                    assert(st0[k] as int == x);
                }
            }
            let node = self.vec[i];
            let far = is_far(&node, position, theta_threshold);
            if far || node.is_leaf() {
                let ghost t0 = taken;
                let ghost b0 = bodies@;
                bodies.push(node);
                proof {
                    taken = t0.insert(i as int);
                    taken_seq = taken_seq.push(i as int);
                    vstd::set::axiom_set_insert_len(t0, i as int);
                    assert(bodies@.drop_last() =~= b0);
                    assert(bodies@.last() == node);
                    assert(bodies_mass(bodies@) == bodies_mass(b0) + node.mass);
                    assert(bodies_pts(bodies@) =~= bodies_pts(b0).add(
                        node.pts@.to_multiset(),
                    ));
                    if theta_threshold == 0 {
                        assert(!far_spec(node, position, theta_threshold)) by {
                            let lh = 2 * (node.half_size as int) * (node.mass as int) * (
                            THETA_ONE as int);
                            let dxg = node.com_x - (node.mass as int) * (position.x as int);
                            let dyg = node.com_y - (node.mass as int) * (position.y as int);
                            assert(lh * lh >= 0) by (nonlinear_arith);
                            assert((theta_threshold as int) * (theta_threshold as int) * (dxg
                                * dxg + dyg * dyg) == 0) by (nonlinear_arith)
                                requires
                                    theta_threshold == 0,
                            ;
                        }
                        assert(is_leaf_spec(node));
                        if self.complete@ {
                            assert(resolved_ok(v, r, self.inserted@));
                            assert(i as int != r) by {
                                if i as int == r {
                                    assert(!is_leaf_spec(v[r]));
                                }
                            }
                            assert(node.pts@.len() >= 1);
                            assert(node.pts@.len() == 1);
                        }
                    }
                    // the walk's claims, with the node now taken
                    assert forall|x: int|
                        #![trigger in_stack(to_visit@, x)]
                        #![trigger expanded.contains(x)]
                        #![trigger taken.contains(x)]
                        in_stack(to_visit@, x) || expanded.contains(x) || taken.contains(
                            x,
                        ) implies x == r || (exists|pj: int, pq: int|
                        0 <= pj < v.len() && 0 <= pq < 4 && expanded.contains(pj)
                            && #[trigger] child_at(v[pj], pq) == Some(x as usize)) by {
                        if x == i as int {
                            assert(in_stack(st0, x));
                        } else if in_stack(to_visit@, x) {
                            assert(in_stack(st0, x));
                        }
                    }
                    if is_leaf_spec(v[r]) || far_spec(v[r], position, theta_threshold) {
                        assert(st0 =~= seq![self.root]);
                        assert(i == self.root);
                        assert(node == v[r]);
                        assert(bodies@ =~= b0.push(v[r]));
                        assert(b0 =~= Seq::<Node>::empty());
                        assert(bodies@ =~= seq![v[r]]);
                    }
                }
            } else {
                proof {
                    if is_leaf_spec(v[r]) || far_spec(v[r], position, theta_threshold) {
                        assert(st0 =~= seq![self.root]);
                        assert(i == self.root);
                        assert(node == v[r]);
                        assert(false);
                    }
                    if self.complete@ {
                        assert(resolved_ok(v, r, self.inserted@));
                        assert(v[i as int].mass as int == children_mass(v, v[i as int]));
                        assert(v[i as int].pts@.to_multiset() == children_pts(v, v[i as int]));
                    }
                }
                proof {
                    assert(children_mass(v, v[i as int]) <= v[i as int].mass);
                }
                let ghost st1 = to_visit@;
                let gex = self.push_children(i, &mut to_visit, Ghost(expanded), Ghost(taken));
                proof {
                    let ex0 = expanded;
                    expanded = gex@;
                    assert forall|x: int| #[trigger] expanded.contains(x) implies !is_leaf_spec(
                        v[x],
                    ) && !far_spec(v[x], position, theta_threshold) by {
                        if x != i as int {
                            assert(ex0.contains(x));
                        }
                    }
                    assert(expanded.len() <= v.len()) by {
                        vstd::set_lib::lemma_int_range(0, v.len() as int);
                        assert(expanded.subset_of(
                            vstd::set_lib::set_int_range(0, v.len() as int),
                        ));
                        vstd::set_lib::lemma_len_subset(
                            expanded,
                            vstd::set_lib::set_int_range(0, v.len() as int),
                        );
                    }
                    assert(stack_mass(v, to_visit@) == stack_mass(v, st1) + children_mass(
                        v,
                        v[i as int],
                    ));
                    assert(stack_pts(v, to_visit@) =~= stack_pts(v, st1).add(children_pts(
                        v,
                        v[i as int],
                    )));
                }
            }
        }
        proof {
            assert forall|k: int|
                0 <= k < bodies@.len() implies exists|i: int|
                0 <= i < self.vec@.len() && #[trigger] bodies@[k] == self.vec@[i] && (i == self.root
                    as int || (exists|pj: int, pq: int|
                    0 <= pj < self.vec@.len() && 0 <= pq < 4 && #[trigger] child_at(
                        self.vec@[pj],
                        pq,
                    ) == Some(i as usize) && !is_leaf_spec(self.vec@[pj]) && !far_spec(
                        self.vec@[pj],
                        position,
                        theta_threshold,
                    ))) by {
                let i = taken_seq[k];
                assert(0 <= i < v.len() && bodies@[k] == v[i]);
                if i != r {
                    let (pj, pq) = choose|pj: int, pq: int|
                        0 <= pj < v.len() && 0 <= pq < 4 && expanded.contains(pj)
                            && #[trigger] child_at(v[pj], pq) == Some(taken_seq[k] as usize);
                    assert(!is_leaf_spec(v[pj]) && !far_spec(v[pj], position, theta_threshold));
                }
            }
            lemma_stack_mass_nonneg(v, to_visit@);
            assert(bodies_mass(bodies@) <= self.total_mass());
            assert(bodies@.len() <= v.len()) by {
                vstd::set_lib::lemma_int_range(0, v.len() as int);
                assert(taken.subset_of(vstd::set_lib::set_int_range(0, v.len() as int)));
                vstd::set_lib::lemma_len_subset(
                    taken,
                    vstd::set_lib::set_int_range(0, v.len() as int),
                );
            }
            if self.complete@ {
                assert(stack_mass(v, to_visit@) == 0);
                assert(stack_pts(v, to_visit@) =~= Multiset::<PointMass>::empty());
                assert(bodies_pts(bodies@) =~= bodies_pts(bodies@).add(stack_pts(
                    v,
                    to_visit@,
                )));
                if theta_threshold == 0 {
                    lemma_bodies_count(bodies@);
                    broadcast use vstd::seq_lib::group_to_multiset_ensures;

                    assert(self.inserted@.to_multiset().len() == self.inserted@.len());
                }
            }
        }
        bodies
    }

    /// Fold the point into the aggregates of node `i`, leaving every other
    /// node and the tree's own fields unchanged.
    fn absorb_point(&mut self, i: usize, position: Vec2i, mass: u64)
        requires
            (i as int) < old(self).vec@.len(),
            node_local_ok(old(self).vec@[i as int]),
            old(self).vec@[i as int].mass + mass <= MASS_LIMIT,
            is_leaf_spec(old(self).vec@[i as int]) ==> old(self).vec@[i as int].pts@.len() == 0,
            -COORD_LIMIT <= position.x <= COORD_LIMIT,
            -COORD_LIMIT <= position.y <= COORD_LIMIT,
        ensures
            final(self).vec@ =~= old(self).vec@.update(
                i as int,
                absorbed(old(self).vec@[i as int], (PointMass { pos: position, mass })),
            ),
            final(self).bounds == old(self).bounds,
            final(self).root == old(self).root,
            final(self).inserted == old(self).inserted,
            final(self).complete == old(self).complete,
            node_local_ok(final(self).vec@[i as int]),
    {
        let ghost p = PointMass { pos: position, mass };
        let ghost oldn = self.vec@[i as int];
        let mut n = self.vec[i];
        proof {
            lemma_sums_push(n.pts@, p);
            assert((mass as int) * (position.x as int) <= (mass as int) * (COORD_LIMIT as int)
                && -((mass as int) * (COORD_LIMIT as int)) <= (mass as int) * (position.x as int)
                && (mass as int) * (position.y as int) <= (mass as int) * (COORD_LIMIT as int)
                && -((mass as int) * (COORD_LIMIT as int)) <= (mass as int) * (position.y as int))
                by (nonlinear_arith)
                requires
                    -COORD_LIMIT <= position.x <= COORD_LIMIT,
                    -COORD_LIMIT <= position.y <= COORD_LIMIT,
                    0 <= mass,
            ;
            assert(((n.mass + mass) as int) * (COORD_LIMIT as int) == (n.mass as int) * (
            COORD_LIMIT as int) + (mass as int) * (COORD_LIMIT as int)) by (nonlinear_arith);
        }
        n.com_x = n.com_x + (mass as i128) * (position.x as i128);
        n.com_y = n.com_y + (mass as i128) * (position.y as i128);
        if n.is_leaf() {
            n.pos = position;
        }
        n.mass = n.mass + mass;
        n.pts = Ghost(n.pts@.push(p));
        self.vec[i] = n;
        proof {
            assert(self.vec@[i as int] == absorbed(oldn, p));
        }
    }

    /// Adds the point mass to the quadtree, subdividing or expanding the
    /// tree as needed. A point inside the bounds descends from the root. A
    /// point outside them doubles the covered square away from the point
    /// and folds the point into the new root's aggregates directly — the
    /// root-expansion shortcut: such a point gets no leaf of its own, which
    /// `complete` records.
    #[verifier::rlimit(100)]
    pub fn add_node(&mut self, position: Vec2i, mass: u64)
        requires
            old(self).wf(),
            -COORD_LIMIT <= position.x <= COORD_LIMIT,
            -COORD_LIMIT <= position.y <= COORD_LIMIT,
            old(self).total_mass() + mass <= MASS_LIMIT,
            !old(self).contains_spec(position) ==> old(self).side() <= SIDE_LIMIT,
        ensures
            final(self).wf(),
            final(self).inserted@ == old(self).inserted@.push(
                (PointMass { pos: position, mass }),
            ),
            final(self).total_mass() == old(self).total_mass() + mass,
            final(self).total_weighted_x() == old(self).total_weighted_x() + mass * position.x,
            final(self).total_weighted_y() == old(self).total_weighted_y() + mass * position.y,
            final(self).complete@ ==> old(self).complete@,
            old(self).complete@ && old(self).contains_spec(position) && descent_completes(
                old(self).vec@,
                old(self).root as int,
                position,
            ) ==> final(self).complete@,
            final(self).vec@.len() >= old(self).vec@.len(),
            old(self).contains_spec(position) ==> forall|j: int|
                0 <= j < old(self).vec@.len() ==> insert_node_evolution(
                    old(self).vec@[j],
                    #[trigger] final(self).vec@[j],
                    (PointMass { pos: position, mass }),
                ),
            old(self).contains_spec(position) && descent_completes(
                old(self).vec@,
                old(self).root as int,
                position,
            ) ==> final(self).vec@.len() > old(self).vec@.len() && (exists|j: int|
                old(self).vec@.len() <= j < final(self).vec@.len() && is_leaf_spec(
                    #[trigger] final(self).vec@[j],
                ) && final(self).vec@[j].pts@ == Seq::<PointMass>::empty().push(
                    (PointMass { pos: position, mass }),
                ) && final(self).vec@[j].pos == position && final(self).vec@[j].mass == mass),
            old(self).contains_spec(position) ==> final(self).bounds == old(self).bounds
                && final(self).root == old(self).root,
            !old(self).contains_spec(position) ==> final(self).side() == 2 * old(self).side()
                && final(self).bounds[0].x <= old(self).bounds[0].x && final(self).bounds[0].y
                <= old(self).bounds[0].y && final(self).bounds[1].x >= old(self).bounds[1].x
                && final(self).bounds[1].y >= old(self).bounds[1].y && !final(self).complete@,
            !old(self).contains_spec(position) ==> ({
                let v0 = old(self).vec@;
                let c = v0[old(self).root as int].center;
                let side = old(self).side();
                let g = growth_slot(c, position);
                &&& final(self).vec@.len() == v0.len() + 1
                &&& final(self).root as int == v0.len()
                &&& (forall|j: int| 0 <= j < v0.len() ==> final(self).vec@[j] == v0[j])
                &&& child_at(final(self).vec@[final(self).root as int], g) == Some(
                    old(self).root,
                )
                &&& (forall|qq: int|
                    0 <= qq < 4 && qq != g ==> #[trigger] child_at(
                        final(self).vec@[final(self).root as int],
                        qq,
                    ) is None)
                &&& final(self).vec@[final(self).root as int].half_size == side
                &&& (position.x < c.x ==> final(self).bounds[0].x == old(self).bounds[0].x - side
                    && final(self).bounds[1].x == old(self).bounds[1].x)
                &&& (position.x >= c.x ==> final(self).bounds[1].x == old(self).bounds[1].x + side
                    && final(self).bounds[0].x == old(self).bounds[0].x)
                &&& (position.y < c.y ==> final(self).bounds[0].y == old(self).bounds[0].y - side
                    && final(self).bounds[1].y == old(self).bounds[1].y)
                &&& (position.y >= c.y ==> final(self).bounds[1].y == old(self).bounds[1].y + side
                    && final(self).bounds[0].y == old(self).bounds[0].y)
            }),
    {
        if self.in_bounds(position) {
            let r = self.root;
            self.split_add_recursive(r, position, mass);
            return ;
        }
        let ghost p = PointMass { pos: position, mass };
        let ghost v0 = self.vec@;
        let prev_root_idx = self.root;
        let rootn = self.vec[prev_root_idx];
        let center = rootn.center;
        let b0 = self.bounds[0];
        let b1 = self.bounds[1];
        let side = b1.x - b0.x;
        let mut children: [Option<usize>; 4] = [None, None, None, None];
        let mut nb0 = b0;
        let mut nb1 = b1;
        let ncenter: Vec2i;
        let ghost q: int;
        if position.x < center.x {
            if position.y < center.y {
                // the point lies up-left: grow the square down-right… away
                // from it on both axes toward smaller coordinates
                nb0 = Vec2i { x: b0.x - side, y: b0.y - side };
                children[2] = Some(prev_root_idx);
                ncenter = Vec2i { x: b0.x, y: b0.y };
                proof {
                    q = 2;
                }
            } else {
                nb0 = Vec2i { x: b0.x - side, y: b0.y };
                nb1 = Vec2i { x: b1.x, y: b1.y + side };
                children[1] = Some(prev_root_idx);
                ncenter = Vec2i { x: b0.x, y: b1.y };
                proof {
                    q = 1;
                }
            }
        } else {
            if position.y < center.y {
                nb0 = Vec2i { x: b0.x, y: b0.y - side };
                nb1 = Vec2i { x: b1.x + side, y: b1.y };
                children[3] = Some(prev_root_idx);
                ncenter = Vec2i { x: b1.x, y: b0.y };
                proof {
                    q = 3;
                }
            } else {
                nb1 = Vec2i { x: b1.x + side, y: b1.y + side };
                children[0] = Some(prev_root_idx);
                ncenter = Vec2i { x: b1.x, y: b1.y };
                proof {
                    q = 0;
                }
            }
        }
        proof {
            assert((mass as int) * (position.x as int) <= (mass as int) * (COORD_LIMIT as int)
                && -((mass as int) * (COORD_LIMIT as int)) <= (mass as int) * (position.x as int)
                && (mass as int) * (position.y as int) <= (mass as int) * (COORD_LIMIT as int)
                && -((mass as int) * (COORD_LIMIT as int)) <= (mass as int) * (position.y as int))
                by (nonlinear_arith)
                requires
                    -COORD_LIMIT <= position.x <= COORD_LIMIT,
                    -COORD_LIMIT <= position.y <= COORD_LIMIT,
                    0 <= mass,
            ;
            assert(node_local_ok(v0[prev_root_idx as int]));
            assert(((rootn.mass + mass) as int) * (COORD_LIMIT as int) == (rootn.mass as int) * (
            COORD_LIMIT as int) + (mass as int) * (COORD_LIMIT as int)) by (nonlinear_arith);
        }
        let new_root = self.vec.len();
        let new_node = Node {
            children,
            mass: rootn.mass + mass,
            center: ncenter,
            half_size: side,
            com_x: rootn.com_x + (mass as i128) * (position.x as i128),
            com_y: rootn.com_y + (mass as i128) * (position.y as i128),
            pos: position,
            pts: Ghost(rootn.pts@.push(p)),
        };
        self.vec.push(new_node);
        self.bounds = [nb0, nb1];
        self.root = new_root;
        self.inserted = Ghost(self.inserted@.push(p));
        self.complete = Ghost(false);
        proof {
            let v2 = self.vec@;
            let r = new_root as int;
            lemma_sums_push(rootn.pts@, p);
            assert(q == growth_slot(center, position));
            assert(child_at(v2[r], q) == Some(prev_root_idx));
            assert forall|qq: int|
                0 <= qq < 4 && qq != q implies #[trigger] child_at(v2[r], qq) is None by {}
            assert(v2[prev_root_idx as int].half_size == side / 2);
            assert(node_local_ok(new_node));
            assert forall|j: int| 0 <= j < v2.len() implies node_local_ok(#[trigger] v2[j]) by {
                if j < v0.len() {
                    assert(v2[j] == v0[j]);
                    assert(node_local_ok(v0[j]));
                }
            }
            assert forall|j: int| 0 <= j < v2.len() implies #[trigger] node_children_ok(
                v2,
                j,
            ) by {
                if j < v0.len() {
                    assert(node_children_ok(v0, j));
                    assert forall|qq: int|
                        0 <= qq < 4 implies child_at(v2[j], qq) == child_at(v0[j], qq) by {}
                    assert forall|qq: int|
                        0 <= qq < 4 && #[trigger] child_at(v0[j], qq) is Some implies {
                            let c = child_at(v0[j], qq)->0;
                            (c as int) < v0.len() && v2[c as int] == v0[c as int] && v2[j]
                                == v0[j]
                        } by {}
                }
            }
            assert forall|i1: int, q1: int, i2: int, q2: int|
                0 <= i1 < v2.len() && 0 <= q1 < 4 && 0 <= i2 < v2.len() && 0 <= q2 < 4
                    && #[trigger] child_at(v2[i1], q1) is Some && child_at(v2[i1], q1)
                    == #[trigger] child_at(v2[i2], q2) implies i1 == i2 && q1 == q2 by {
                if child_at(v2[i1], q1) == Some(prev_root_idx) {
                    assert(i1 == r && q1 == q) by {
                        if i1 < v0.len() {
                            assert(child_at(v2[i1], q1) == child_at(v0[i1], q1));
                            assert(not_a_child(v0, prev_root_idx as int));
                        }
                    }
                    assert(i2 == r && q2 == q) by {
                        if i2 < v0.len() {
                            assert(child_at(v2[i2], q2) == child_at(v0[i2], q2));
                            assert(not_a_child(v0, prev_root_idx as int));
                        }
                    }
                } else {
                    assert(i1 < v0.len() && i2 < v0.len()) by {
                        if i1 == r {
                            assert(child_at(v2[i1], q1) is None || child_at(v2[i1], q1) == Some(
                                prev_root_idx,
                            ));
                        }
                        if i2 == r {
                            assert(child_at(v2[i2], q2) is None || child_at(v2[i2], q2) == Some(
                                prev_root_idx,
                            ));
                        }
                    }
                    assert(child_at(v2[i1], q1) == child_at(v0[i1], q1));
                    assert(child_at(v2[i2], q2) == child_at(v0[i2], q2));
                }
            }
            assert(not_a_child(v2, r)) by {
                assert forall|i: int, qq: int|
                    0 <= i < v2.len() && 0 <= qq < 4 implies #[trigger] child_at(v2[i], qq)
                        != Some(new_root) by {
                    if i < v0.len() {
                        assert(child_at(v2[i], qq) == child_at(v0[i], qq));
                        if child_at(v0[i], qq) is Some {
                            assert(node_children_ok(v0, i));
                            assert((child_at(v0[i], qq)->0 as int) < v0.len());
                        }
                    } else {
                        assert(child_at(v2[i], qq) is None || child_at(v2[i], qq) == Some(
                            prev_root_idx,
                        ));
                        assert((prev_root_idx as int) < v0.len());
                    }
                }
            }
            assert forall|j: int|
                0 <= j < v2.len() implies #[trigger] children_mass(v2, v2[j]) <= v2[j].mass by {
                if j < v0.len() {
                    assert forall|slot: Option<usize>|
                        slot == v0[j].children[0] || slot == v0[j].children[1] || slot
                            == v0[j].children[2] || slot == v0[j].children[3] implies slot_mass(
                        v2,
                        slot,
                    ) == slot_mass(v0, slot) by {
                        match slot {
                            Some(c) => {
                                if (c as int) < v0.len() {
                                    assert(v2[c as int] == v0[c as int]);
                                } else if (c as int) < v2.len() {
                                    assert(node_children_ok(v0, j));
                                    assert(child_at(v0[j], 0) == v0[j].children[0]);
                                    assert(child_at(v0[j], 1) == v0[j].children[1]);
                                    assert(child_at(v0[j], 2) == v0[j].children[2]);
                                    assert(child_at(v0[j], 3) == v0[j].children[3]);
                                }
                            },
                            None => {},
                        }
                    }
                    assert(v2[j].children == v0[j].children);
                    assert(children_mass(v2, v2[j]) == children_mass(v0, v0[j]));
                    assert(children_mass(v0, v0[j]) <= v0[j].mass);
                } else {
                    assert(child_at(v2[j], 0) == v2[j].children[0]);
                    assert(child_at(v2[j], 1) == v2[j].children[1]);
                    assert(child_at(v2[j], 2) == v2[j].children[2]);
                    assert(child_at(v2[j], 3) == v2[j].children[3]);
                    assert(children_mass(v2, v2[j]) == v0[prev_root_idx as int].mass);
                }
            }
            assert(nodes_ok(v2));
            assert(self.bounds_ok());
            assert(self.wf());
        }
    }

    /// Finds the leaf that needs to be split to insert the new point and
    /// splits it, walking down from the root. At each node on the path the
    /// aggregates are updated before descending. An empty target slot gets
    /// a fresh leaf; a leaf in the target slot is promoted to an internal
    /// node that takes over its region, with the original leaf re-centered
    /// one level down; an internal node in the slot is descended into. A
    /// walk that reaches a degenerate region of zero half size folds the
    /// point into the aggregates there and stops.
    #[verifier::rlimit(100)]
    fn split_add_recursive(&mut self, node_idx: usize, position: Vec2i, mass: u64)
        requires
            old(self).wf(),
            node_idx == old(self).root,
            -COORD_LIMIT <= position.x <= COORD_LIMIT,
            -COORD_LIMIT <= position.y <= COORD_LIMIT,
            old(self).total_mass() + mass <= MASS_LIMIT,
        ensures
            insert_done(*final(self), *old(self), (PointMass { pos: position, mass })),
            old(self).complete@ && descent_completes(
                old(self).vec@,
                old(self).root as int,
                position,
            ) ==> final(self).complete@,
            descent_completes(old(self).vec@, old(self).root as int, position)
                ==> final(self).vec@.len() > old(self).vec@.len() && (exists|j: int|
                old(self).vec@.len() <= j < final(self).vec@.len() && is_leaf_spec(
                    #[trigger] final(self).vec@[j],
                ) && final(self).vec@[j].pts@ == Seq::<PointMass>::empty().push(
                    (PointMass { pos: position, mass }),
                ) && final(self).vec@[j].pos == position && final(self).vec@[j].mass == mass),
    {
        let ghost base = *old(self);
        let ghost p = PointMass { pos: position, mass };
        let ghost v0 = self.vec@;
        self.inserted = Ghost(self.inserted@.push(p));
        self.absorb_point(node_idx, position, mass);
        let mut cur: usize = node_idx;
        proof {
            let v1 = self.vec@;
            let r = self.root as int;
            lemma_structure_frame(v0, v1);
            lemma_absorb_mass_frame(v0, v1, node_idx, p, -1, 0);
            lemma_absorb_pts_frame(v0, v1, node_idx, p, -1, 0);
            assert((mass as int) * (position.x as int) <= (mass as int) * (COORD_LIMIT as int)
                && -((mass as int) * (COORD_LIMIT as int)) <= (mass as int) * (position.x as int)
                && (mass as int) * (position.y as int) <= (mass as int) * (COORD_LIMIT as int)
                && -((mass as int) * (COORD_LIMIT as int)) <= (mass as int) * (position.y as int))
                by (nonlinear_arith)
                requires
                    -COORD_LIMIT <= position.x <= COORD_LIMIT,
                    -COORD_LIMIT <= position.y <= COORD_LIMIT,
                    0 <= mass,
            ;
            assert(node_local_ok(v0[r]));
            assert(v1[r] == absorbed(v0[r], p));
            assert(v1[r].mass == v0[r].mass + mass);
            assert(v1[r].com_x == v0[r].com_x + mass * position.x);
            assert(v1[r].com_y == v0[r].com_y + mass * position.y);
            vstd::seq_lib::to_multiset_build(v0[r].pts@, p);
            assert(nodes_ok(v1));
            assert(children_mass(v1, v1[r]) + mass <= v1[r].mass) by {
                assert(children_mass(v0, v0[r]) <= v0[r].mass);
                assert(children_mass(v1, v1[r]) == children_mass(v0, v0[r]));
            }
            if self.complete@ {
                assert(resolved_ok(v0, r, base.inserted@));
                assert forall|i: int|
                    0 <= i < v1.len() && i != cur as int && !is_leaf_spec(v1[i]) implies v1[i].mass
                        as int == #[trigger] children_mass(v1, v1[i]) && v1[i].pts@.to_multiset()
                        == children_pts(v1, v1[i]) by {
                    assert(v1[i] == v0[i]);
                    assert(children_mass(v1, v1[i]) == children_mass(v0, v0[i]));
                    assert(children_pts(v1, v1[i]) == children_pts(v0, v0[i]));
                    assert(!is_leaf_spec(v0[i]));
                    assert(v0[i].mass as int == children_mass(v0, v0[i]));
                    assert(v0[i].pts@.to_multiset() == children_pts(v0, v0[i]));
                }
                if !is_leaf_spec(v1[r]) {
                    assert(!is_leaf_spec(v0[r]));
                    assert(v0[r].mass as int == children_mass(v0, v0[r]));
                    assert(v0[r].pts@.to_multiset() == children_pts(v0, v0[r]));
                    assert(children_mass(v1, v1[r]) == children_mass(v0, v0[r]));
                    assert(children_pts(v1, v1[r]) == children_pts(v0, v0[r]));
                    assert(v1[r].pts@.to_multiset() == children_pts(v1, v1[r]).insert(p));
                }
                assert(gap_ok(v1, cur as int, p));
            }
            assert forall|j: int|
                0 <= j < base.vec@.len() implies insert_node_evolution(
                base.vec@[j],
                #[trigger] v1[j],
                p,
            ) by {
                if j == r {
                    assert(v1[j] == absorbed(v0[j], p));
                } else {
                    assert(v1[j] == v0[j]);
                }
            }
            if descent_completes(base.vec@, base.root as int, position) {
                assert(base.vec@ == v0);
                if is_leaf_spec(v0[r]) {
                    assert(v1[r].children == v0[r].children);
                    assert(v1[r].half_size == v0[r].half_size);
                    assert(v0[r].half_size > 0);
                    let qd = quad_sel(
                        v1[r].center.x as int,
                        v1[r].center.y as int,
                        position.x as int,
                        position.y as int,
                    );
                    assert(child_at(v1[r], qd) is None);
                    assert(descent_completes(v1, r, position));
                } else {
                    assert forall|j: int|
                        0 <= j < v0.len() ==> (#[trigger] v1[j]).children == v0[j].children
                            && v1[j].center == v0[j].center && v1[j].half_size == v0[j].half_size
                            && (is_leaf_spec(v0[j]) ==> v1[j].pos == v0[j].pos) by {}
                    lemma_descent_frame(v0, v1, r, position);
                }
            }
            assert(insert_inv(*self, base, cur as int, p));
        }
        loop
            invariant_except_break
                insert_inv(*self, base, cur as int, p),
                p == (PointMass { pos: position, mass }),
            ensures
                insert_done(*self, base, p),
                descent_completes(base.vec@, base.root as int, position) ==> self.complete
                    == base.complete,
                descent_completes(base.vec@, base.root as int, position) ==> self.vec@.len()
                    > base.vec@.len() && (exists|j: int|
                    base.vec@.len() <= j < self.vec@.len() && is_leaf_spec(
                        #[trigger] self.vec@[j],
                    ) && self.vec@[j].pts@ == Seq::<PointMass>::empty().push(p)
                        && self.vec@[j].pos == position && self.vec@[j].mass == mass),
            decreases self.vec@[cur as int].half_size,
        {
            let curn = self.vec[cur];
            if curn.half_size == 0 {
                // A degenerate region: the point stays folded into the
                // aggregates along the path, with no leaf of its own. A
                // walk whose descent resolves never reaches this.
                proof {
                    if descent_completes(base.vec@, base.root as int, position) {
                        assert(descent_completes(self.vec@, cur as int, position));
                        assert(false);
                    }
                }
                self.complete = Ghost(false);
                proof {
                    assert((cur as int) != self.root as int);
                    assert(!is_leaf_spec(self.vec@[self.root as int]));
                }
                break ;
            }
            let q = curn.get_quadrant(position);
            proof {
                assert(child_at(self.vec@[cur as int], q as int) == curn.children[q as int]);
            }
            match curn.children[q] {
                None => {
                    self.step_empty_slot(cur, q, position, mass, Ghost(base));
                    break ;
                },
                Some(child_idx) => {
                    proof {
                        let va = self.vec@;
                        assert(node_children_ok(va, cur as int));
                        assert(child_at(va[cur as int], q as int) == Some(child_idx));
                        assert((child_idx as int) < va.len());
                    }
                    if self.vec[child_idx].is_leaf() {
                        cur = self.step_promote(cur, q, child_idx, position, mass, Ghost(base));
                    } else {
                        self.step_descend(cur, q, child_idx, position, mass, Ghost(base));
                        cur = child_idx;
                    }
                },
            }
        }
    }

    /// One walk step into an empty slot: a fresh leaf holding the point is
    /// pushed and linked, which finishes the insertion.
    #[verifier::rlimit(100)]
    fn step_empty_slot(
        &mut self,
        cur: usize,
        q: usize,
        position: Vec2i,
        mass: u64,
        Ghost(base): Ghost<QuadTree>,
    )
        requires
            insert_inv(*old(self), base, cur as int, (PointMass { pos: position, mass })),
            old(self).vec@[cur as int].half_size >= 1,
            q as int == quad_of(old(self).vec@[cur as int].center, position),
            q < 4,
            child_at(old(self).vec@[cur as int], q as int) is None,
        ensures
            insert_done(*final(self), base, (PointMass { pos: position, mass })),
            final(self).complete == old(self).complete,
            final(self).vec@.len() == old(self).vec@.len() + 1,
            is_leaf_spec(final(self).vec@[old(self).vec@.len() as int]),
            final(self).vec@[old(self).vec@.len() as int].pts@ == Seq::<
                PointMass,
            >::empty().push((PointMass { pos: position, mass })),
            final(self).vec@[old(self).vec@.len() as int].pos == position,
            final(self).vec@[old(self).vec@.len() as int].mass == mass,
    {
        let ghost p = PointMass { pos: position, mass };
        let ghost va = self.vec@;
        let curn = self.vec[cur];
        let nh = curn.half_size / 2;
        proof {
            assert(node_local_ok(va[cur as int]));
            assert((mass as int) * (position.x as int) <= (mass as int) * (COORD_LIMIT as int)
                && -((mass as int) * (COORD_LIMIT as int)) <= (mass as int) * (position.x as int)
                && (mass as int) * (position.y as int) <= (mass as int) * (COORD_LIMIT as int)
                && -((mass as int) * (COORD_LIMIT as int)) <= (mass as int) * (position.y as int))
                by (nonlinear_arith)
                requires
                    -COORD_LIMIT <= position.x <= COORD_LIMIT,
                    -COORD_LIMIT <= position.y <= COORD_LIMIT,
                    0 <= mass,
            ;
        }
        let ccenter = child_center(curn.center, nh, q);
        let idx = self.vec.len();
        let leaf = Node {
            children: [None, None, None, None],
            mass,
            center: ccenter,
            half_size: nh,
            com_x: (mass as i128) * (position.x as i128),
            com_y: (mass as i128) * (position.y as i128),
            pos: position,
            pts: Ghost(Seq::<PointMass>::empty().push(p)),
        };
        self.vec.push(leaf);
        let ghost vb = self.vec@;
        let mut curn2 = self.vec[cur];
        curn2.children[q] = Some(idx);
        self.vec[cur] = curn2;
        proof {
            let vc = self.vec@;
            let r = self.root as int;
            lemma_sums_push(Seq::<PointMass>::empty(), p);
            vstd::seq_lib::to_multiset_build(Seq::<PointMass>::empty(), p);
            lemma_empty_pts_multiset();
            assert(node_local_ok(leaf));
            lemma_push_frame(va, vb);
            assert(not_a_child(vb, idx as int)) by {
                assert forall|i: int, qq: int|
                    0 <= i < vb.len() && 0 <= qq < 4 implies #[trigger] child_at(vb[i], qq)
                        != Some(idx) by {
                    if i < va.len() {
                        assert(child_at(vb[i], qq) == child_at(va[i], qq));
                        if child_at(va[i], qq) is Some {
                            assert((child_at(va[i], qq)->0 as int) < va.len());
                        }
                    } else {
                        assert(is_leaf_spec(vb[i]));
                    }
                }
            }
            assert(child_at(vc[cur as int], q as int) == Some(idx));
            assert forall|qq: int|
                0 <= qq < 4 && qq != q as int implies #[trigger] child_at(vc[cur as int], qq)
                    == child_at(vb[cur as int], qq) by {}
            vstd::std_specs::vec::axiom_spec_len(&self.vec);
            assert(vb.len() <= usize::MAX);
            assert(va[cur as int].half_size >= 1);
            assert forall|j2: int, qq2: int|
                0 <= j2 < vb.len() && 0 <= qq2 < 4 && #[trigger] child_at(vb[j2], qq2) == Some(
                    cur,
                ) implies vb[j2].half_size >= 1 by {
                assert(child_at(vb[j2], qq2) == child_at(va[j2], qq2));
                assert(node_children_ok(va, j2));
                assert(va[cur as int].half_size == va[j2].half_size / 2);
            }
            lemma_set_slot(vb, vc, cur, q as int, idx);
            lemma_relink_frame(vb, vc, cur);
            // sums at cur: the one new slot adds exactly the new point
            assert forall|qq: int|
                0 <= qq < 4 && qq != q as int implies slot_mass(vc, child_at(va[cur as int], qq))
                    == slot_mass(va, #[trigger] child_at(va[cur as int], qq)) && slot_pts(
                    vc,
                    child_at(va[cur as int], qq),
                ) == slot_pts(va, child_at(va[cur as int], qq)) by {
                assert(node_children_ok(va, cur as int));
                match child_at(va[cur as int], qq) {
                    Some(c) => {
                        assert((c as int) < va.len() && (c as int) != cur as int);
                        assert(vc[c as int] == va[c as int]);
                    },
                    None => {},
                }
            }
            assert(child_at(va[cur as int], q as int) is None);
            assert(slot_mass(vc, Some(idx)) == mass as int);
            assert(slot_pts(vc, Some(idx)) == leaf.pts@.to_multiset());
            assert(leaf.pts@.to_multiset() =~= Multiset::<PointMass>::empty().insert(p));
            assert(child_at(vc[cur as int], 0) == vc[cur as int].children[0]);
            assert(child_at(vc[cur as int], 1) == vc[cur as int].children[1]);
            assert(child_at(vc[cur as int], 2) == vc[cur as int].children[2]);
            assert(child_at(vc[cur as int], 3) == vc[cur as int].children[3]);
            assert(child_at(va[cur as int], 0) == va[cur as int].children[0]);
            assert(child_at(va[cur as int], 1) == va[cur as int].children[1]);
            assert(child_at(va[cur as int], 2) == va[cur as int].children[2]);
            assert(child_at(va[cur as int], 3) == va[cur as int].children[3]);
            assert(children_mass(vc, vc[cur as int]) == children_mass(va, va[cur as int])
                + mass);
            assert(children_pts(vc, vc[cur as int]) =~= children_pts(va, va[cur as int]).insert(
                p,
            ));
            // per-node local facts
            assert forall|j: int| 0 <= j < vc.len() implies node_local_ok(#[trigger] vc[j]) by {
                if j == idx as int {
                } else if j == cur as int {
                    assert(node_local_ok(va[j]));
                    assert(!is_leaf_spec(vc[j]));
                } else {
                    assert(vc[j] == va[j]);
                    assert(node_local_ok(va[j]));
                }
            }
            assert forall|j: int|
                0 <= j < vc.len() implies #[trigger] children_mass(vc, vc[j]) <= vc[j].mass by {
                if j == cur as int {
                } else if j == idx as int {
                    assert(children_mass(vc, vc[j]) == 0);
                } else {
                    assert(children_mass(vc, vc[j]) == children_mass(vb, vb[j]));
                    assert(children_mass(vb, vb[j]) == children_mass(va, va[j]));
                    assert(children_mass(va, va[j]) <= va[j].mass);
                    assert(vc[j].mass == va[j].mass);
                }
            }
            assert(nodes_ok(vc));
            // the gap at cur is closed by the new leaf
            if self.complete@ {
                assert forall|i: int|
                    0 <= i < vc.len() && !is_leaf_spec(vc[i]) implies vc[i].mass as int
                        == #[trigger] children_mass(vc, vc[i]) && vc[i].pts@.to_multiset()
                        == children_pts(vc, vc[i]) by {
                    if i == cur as int {
                        if is_leaf_spec(va[i]) {
                            assert(cur as int == r);
                            assert(va[i].pts@.len() == 1);
                            assert(va[i].pts@[0] == (PointMass {
                                pos: va[i].pos,
                                mass: va[i].mass,
                            }));
                            assert(va[i].pts@ =~= Seq::<PointMass>::empty().push(va[i].pts@[0]));
                            assert(child_at(va[i], 0) is None && child_at(va[i], 1) is None
                                && child_at(va[i], 2) is None && child_at(va[i], 3) is None);
                            assert(children_mass(va, va[i]) == 0);
                            assert(children_pts(va, va[i]) =~= Multiset::<PointMass>::empty());
                            assert(va[i].pts@ == self.inserted@);
                            assert(self.inserted@ == base.inserted@.push(p));
                            assert(base.inserted@.len() == 0);
                            assert(base.inserted@ =~= Seq::<PointMass>::empty());
                            assert(va[i].pts@ == Seq::<PointMass>::empty().push(p));
                            assert(va[i].pts@.to_multiset() =~= Multiset::<
                                PointMass,
                            >::empty().insert(p));
                            assert(vc[i].pts@.to_multiset() =~= children_pts(vc, vc[i]));
                            assert(vc[i].mass as int == children_mass(vc, vc[i]));
                        } else {
                            assert(gap_ok(va, cur as int, p));
                            assert(va[i].mass as int == children_mass(va, va[i]) + p.mass);
                            assert(va[i].pts@.to_multiset() == children_pts(va, va[i]).insert(
                                p,
                            ));
                            assert(vc[i].pts@.to_multiset() =~= children_pts(vc, vc[i]));
                        }
                    } else if i == idx as int {
                    } else {
                        assert(children_mass(vc, vc[i]) == children_mass(vb, vb[i]));
                        assert(children_mass(vb, vb[i]) == children_mass(va, va[i]));
                        assert(children_pts(vc, vc[i]) == children_pts(vb, vb[i]));
                        assert(children_pts(vb, vb[i]) == children_pts(va, va[i]));
                        assert(vc[i] == va[i]);
                        assert(!is_leaf_spec(va[i]));
                        assert(gap_ok(va, cur as int, p));
                        assert(va[i].mass as int == children_mass(va, va[i]));
                        assert(va[i].pts@.to_multiset() == children_pts(va, va[i]));
                    }
                }
                assert forall|i: int|
                    0 <= i < vc.len() && i != r implies (#[trigger] vc[i]).pts@.len() >= 1 by {
                    if i == idx as int {
                    } else if i == cur as int {
                        assert(vc[i].pts@ == va[i].pts@);
                    } else {
                        assert(vc[i] == va[i]);
                    }
                }
                assert(self.inserted@.len() >= 1 ==> !is_leaf_spec(vc[r])) by {
                    if cur as int == r {
                        assert(!is_leaf_spec(vc[r]));
                    } else {
                        assert(!is_leaf_spec(va[r]));
                        assert(vc[r] == va[r]);
                    }
                }
                assert(resolved_ok(vc, r, self.inserted@));
            }
            assert(is_leaf_spec(vc[r]) ==> self.inserted@.len() == 0) by {
                if cur as int == r {
                    assert(!is_leaf_spec(vc[r]));
                } else {
                    assert(!is_leaf_spec(va[r]));
                    assert(vc[r] == va[r]);
                }
            }
            assert(vc[r].pts@ == self.inserted@) by {
                if cur as int == r {
                    assert(vc[r].pts@ == va[r].pts@);
                } else {
                    assert(vc[r] == va[r]);
                }
            }
            assert(vc[r].mass == va[r].mass && vc[r].com_x == va[r].com_x && vc[r].com_y
                == va[r].com_y && vc[r].half_size == va[r].half_size && vc[r].center
                == va[r].center) by {
                if cur as int != r {
                    assert(vc[r] == va[r]);
                }
            }
            assert(self.wf());
            assert forall|j: int|
                0 <= j < base.vec@.len() implies insert_node_evolution(
                base.vec@[j],
                #[trigger] vc[j],
                p,
            ) by {
                assert(insert_node_evolution(base.vec@[j], va[j], p));
                if j == cur as int {
                    assert(va[j].pts@ == base.vec@[j].pts@.push(p));
                    assert(vc[j].pts == va[j].pts && vc[j].mass == va[j].mass && vc[j].com_x
                        == va[j].com_x && vc[j].com_y == va[j].com_y && vc[j].center
                        == va[j].center && vc[j].half_size == va[j].half_size && vc[j].pos
                        == va[j].pos);
                } else {
                    assert(vc[j] == va[j]);
                }
            }
            assert(insert_done(*self, base, p));
        }
    }
    /// The structural half of a promotion: push the internal copy, link it
    /// in the original leaf's slot, re-center the original one level down
    /// and link it under the copy. The pending point is not yet folded in.
    #[verifier::rlimit(100)]
    #[verifier::spinoff_prover]
    fn promote_structure(
        &mut self,
        cur: usize,
        q: usize,
        child_idx: usize,
        Ghost(p): Ghost<PointMass>,
        Ghost(base): Ghost<QuadTree>,
    ) -> (idx: usize)
        requires
            insert_inv(*old(self), base, cur as int, p),
            old(self).vec@[cur as int].half_size >= 1,
            q < 4,
            child_at(old(self).vec@[cur as int], q as int) == Some(child_idx),
            is_leaf_spec(old(self).vec@[child_idx as int]),
        ensures
            ({
                let va = old(self).vec@;
                let ve = final(self).vec@;
                let original = va[child_idx as int];
                &&& ve.len() == va.len() + 1
                &&& idx as int == va.len()
                &&& final(self).root == old(self).root
                &&& final(self).bounds == old(self).bounds
                &&& final(self).inserted == old(self).inserted
                &&& final(self).complete == old(self).complete
                &&& forall|j: int|
                    0 <= j < va.len() && j != cur as int && j != child_idx as int ==> ve[j]
                        == va[j]
                &&& forall|j: int| 0 <= j < ve.len() ==> #[trigger] node_children_ok(ve, j)
                &&& slots_unique(ve)
                &&& not_a_child(ve, final(self).root as int)
                &&& forall|j: int| 0 <= j < ve.len() ==> node_local_ok(#[trigger] ve[j])
                &&& forall|j: int|
                    0 <= j < va.len() && j != cur as int ==> #[trigger] children_mass(ve, ve[j])
                        == children_mass(va, va[j]) && children_pts(ve, ve[j]) == children_pts(
                        va,
                        va[j],
                    )
                &&& children_mass(ve, ve[cur as int]) == children_mass(va, va[cur as int])
                &&& children_pts(ve, ve[cur as int]) == children_pts(va, va[cur as int])
                &&& children_mass(ve, ve[idx as int]) == original.mass as int
                &&& children_pts(ve, ve[idx as int]) == original.pts@.to_multiset()
                &&& child_at(ve[cur as int], q as int) == Some(idx)
                &&& ve[idx as int].mass == original.mass
                &&& ve[idx as int].com_x == original.com_x
                &&& ve[idx as int].com_y == original.com_y
                &&& ve[idx as int].pts == original.pts
                &&& ve[idx as int].half_size == original.half_size
                &&& ve[idx as int].center == original.center
                &&& !is_leaf_spec(ve[idx as int])
                &&& child_at(ve[idx as int], quad_of(original.center, original.pos)) == Some(
                    child_idx,
                )
                &&& (forall|qq: int|
                    0 <= qq < 4 && qq != quad_of(original.center, original.pos)
                        ==> #[trigger] child_at(ve[idx as int], qq) is None)
                &&& ve[child_idx as int].half_size == original.half_size / 2
                &&& ve[child_idx as int].center.x == quad_center_x(
                    original.center,
                    original.half_size / 2,
                    quad_of(original.center, original.pos),
                )
                &&& ve[child_idx as int].center.y == quad_center_y(
                    original.center,
                    original.half_size / 2,
                    quad_of(original.center, original.pos),
                )
                &&& ve[cur as int].mass == va[cur as int].mass
                &&& ve[cur as int].com_x == va[cur as int].com_x
                &&& ve[cur as int].com_y == va[cur as int].com_y
                &&& ve[cur as int].pts == va[cur as int].pts
                &&& ve[cur as int].half_size == va[cur as int].half_size
                &&& ve[cur as int].center == va[cur as int].center
                &&& ve[cur as int].pos == va[cur as int].pos
                &&& !is_leaf_spec(ve[cur as int])
                &&& ve[child_idx as int].mass == original.mass
                &&& ve[child_idx as int].com_x == original.com_x
                &&& ve[child_idx as int].com_y == original.com_y
                &&& ve[child_idx as int].pts == original.pts
                &&& ve[child_idx as int].pos == original.pos
                &&& is_leaf_spec(ve[child_idx as int])
                &&& forall|j: int|
                    0 <= j < ve.len() ==> #[trigger] children_mass(ve, ve[j]) <= ve[j].mass
            }),
    {
        let ghost va = self.vec@;
        proof {
            assert(node_children_ok(va, cur as int));
            assert((child_idx as int) < va.len());
            assert(node_local_ok(va[child_idx as int]));
            assert(node_local_ok(va[cur as int]));
            assert(va[child_idx as int].half_size == va[cur as int].half_size / 2);
            assert(child_at(va[cur as int], q as int) == Some(child_idx));
            assert(slot_mass(va, Some(child_idx)) == va[child_idx as int].mass);
            assert(child_at(va[cur as int], 0) == va[cur as int].children[0]);
            assert(child_at(va[cur as int], 1) == va[cur as int].children[1]);
            assert(child_at(va[cur as int], 2) == va[cur as int].children[2]);
            assert(child_at(va[cur as int], 3) == va[cur as int].children[3]);
        }
        let original = self.vec[child_idx];
        let idx = self.vec.len();
        let knode = Node {
            children: [None, None, None, None],
            mass: original.mass,
            center: original.center,
            half_size: original.half_size,
            com_x: original.com_x,
            com_y: original.com_y,
            pos: original.pos,
            pts: original.pts,
        };
        self.vec.push(knode);
        let ghost vb = self.vec@;
        let mut curn2 = self.vec[cur];
        curn2.children[q] = Some(idx);
        self.vec[cur] = curn2;
        let ghost vc = self.vec@;
        let newq = knode.get_quadrant(original.pos);
        let nh2 = original.half_size / 2;
        let ncenter = child_center(original.center, nh2, newq);
        let mut on = self.vec[child_idx];
        on.half_size = nh2;
        on.center = ncenter;
        self.vec[child_idx] = on;
        let ghost vd = self.vec@;
        let mut kn = self.vec[idx];
        kn.children[newq] = Some(child_idx);
        self.vec[idx] = kn;
        let ghost ve = self.vec@;
        proof {
            lemma_push_frame(va, vb);
            assert(not_a_child(vb, idx as int)) by {
                assert forall|i: int, qq: int|
                    0 <= i < vb.len() && 0 <= qq < 4 implies #[trigger] child_at(vb[i], qq)
                        != Some(idx) by {
                    if i < va.len() {
                        assert(child_at(vb[i], qq) == child_at(va[i], qq));
                        if child_at(va[i], qq) is Some {
                            assert((child_at(va[i], qq)->0 as int) < va.len());
                        }
                    } else {
                        assert(is_leaf_spec(vb[i]));
                    }
                }
            }
            assert(child_at(vc[cur as int], q as int) == Some(idx));
            assert forall|qq: int|
                0 <= qq < 4 && qq != q as int implies #[trigger] child_at(vc[cur as int], qq)
                    == child_at(vb[cur as int], qq) by {}
            vstd::std_specs::vec::axiom_spec_len(&self.vec);
            assert(vb.len() <= usize::MAX);
            assert(va[cur as int].half_size >= 1);
            assert forall|j2: int, qq2: int|
                0 <= j2 < vb.len() && 0 <= qq2 < 4 && #[trigger] child_at(vb[j2], qq2) == Some(
                    cur,
                ) implies vb[j2].half_size >= 1 by {
                assert(child_at(vb[j2], qq2) == child_at(va[j2], qq2));
                assert(node_children_ok(va, j2));
                assert(va[cur as int].half_size == va[j2].half_size / 2);
            }
            lemma_set_slot(vb, vc, cur, q as int, idx);
            lemma_relink_frame(vb, vc, cur);
            assert(not_a_child(vc, child_idx as int));
            assert(is_leaf_spec(vc[child_idx as int]));
            lemma_recenter(vc, vd, child_idx);
            assert(child_at(ve[idx as int], newq as int) == Some(child_idx));
            assert forall|qq: int|
                0 <= qq < 4 && qq != newq as int implies #[trigger] child_at(ve[idx as int], qq)
                    == child_at(vd[idx as int], qq) by {}
            assert(not_a_child(vd, child_idx as int));
            assert(ve[child_idx as int].half_size == ve[idx as int].half_size / 2);
            assert(ve[child_idx as int].center.x == quad_center_x(
                ve[idx as int].center,
                ve[idx as int].half_size / 2,
                newq as int,
            ));
            assert(ve[child_idx as int].center.y == quad_center_y(
                ve[idx as int].center,
                ve[idx as int].half_size / 2,
                newq as int,
            ));
            assert(vd.len() <= usize::MAX);
            assert(ve[idx as int].half_size == 0 ==> is_leaf_spec(ve[child_idx as int]));
            assert forall|j2: int, qq2: int|
                0 <= j2 < vd.len() && 0 <= qq2 < 4 && #[trigger] child_at(vd[j2], qq2) == Some(
                    idx,
                ) implies vd[j2].half_size >= 1 by {
                assert(child_at(vd[j2], qq2) == child_at(vc[j2], qq2));
                assert(child_at(vc[j2], qq2) is Some && child_at(vc[j2], qq2) == child_at(
                    vc[cur as int],
                    q as int,
                ));
                assert(j2 == cur as int);
                assert(vd[cur as int].half_size == va[cur as int].half_size);
            }
            lemma_set_slot(vd, ve, idx, newq as int, child_idx);
            lemma_relink_frame(vd, ve, idx);
            // children sums of the new arena
            assert forall|qq: int|
                0 <= qq < 4 && qq != q as int implies slot_mass(ve, child_at(va[cur as int], qq))
                    == slot_mass(va, #[trigger] child_at(va[cur as int], qq)) && slot_pts(
                    ve,
                    child_at(va[cur as int], qq),
                ) == slot_pts(va, child_at(va[cur as int], qq)) by {
                match child_at(va[cur as int], qq) {
                    Some(c) => {
                        assert((c as int) < va.len() && (c as int) != cur as int);
                        assert(c != child_idx) by {
                            if c == child_idx {
                                assert(child_at(va[cur as int], qq) is Some && child_at(
                                    va[cur as int],
                                    qq,
                                ) == child_at(va[cur as int], q as int));
                            }
                        }
                        assert(ve[c as int] == va[c as int]);
                    },
                    None => {},
                }
            }
            assert(child_at(vc[cur as int], 0) == vc[cur as int].children[0]);
            assert(child_at(vc[cur as int], 1) == vc[cur as int].children[1]);
            assert(child_at(vc[cur as int], 2) == vc[cur as int].children[2]);
            assert(child_at(vc[cur as int], 3) == vc[cur as int].children[3]);
            assert(ve[cur as int].children == vc[cur as int].children);
            assert(child_at(ve[cur as int], q as int) == Some(idx));
            assert(slot_mass(ve, Some(idx)) == original.mass as int);
            assert(slot_pts(ve, Some(idx)) == original.pts@.to_multiset());
            assert(slot_mass(va, Some(child_idx)) == original.mass as int);
            assert(slot_pts(va, Some(child_idx)) == original.pts@.to_multiset());
            assert(children_mass(ve, ve[cur as int]) == children_mass(va, va[cur as int]));
            assert(children_pts(ve, ve[cur as int]) =~= children_pts(va, va[cur as int]));
            assert forall|j: int|
                0 <= j < va.len() && j != cur as int && j != child_idx as int implies ve[j]
                    == va[j] by {
                assert(vb[j] == va[j]);
                assert(vc[j] == vb[j]);
                assert(vd[j] == vc[j]);
            }
            assert forall|j: int|
                0 <= j < va.len() && j != cur as int implies #[trigger] children_mass(ve, ve[j])
                    == children_mass(va, va[j]) && children_pts(ve, ve[j]) == children_pts(
                    va,
                    va[j],
                ) by {
                assert(children_mass(vc, vc[j]) == children_mass(vb, vb[j]));
                assert(children_mass(vb, vb[j]) == children_mass(va, va[j]));
                assert(children_mass(vd, vd[j]) == children_mass(vc, vc[j]));
                assert(children_mass(ve, ve[j]) == children_mass(vd, vd[j]));
                assert(children_pts(vc, vc[j]) == children_pts(vb, vb[j]));
                assert(children_pts(vb, vb[j]) == children_pts(va, va[j]));
                assert(children_pts(vd, vd[j]) == children_pts(vc, vc[j]));
                assert(children_pts(ve, ve[j]) == children_pts(vd, vd[j]));
            }
            assert(child_at(ve[idx as int], 0) == ve[idx as int].children[0]);
            assert(child_at(ve[idx as int], 1) == ve[idx as int].children[1]);
            assert(child_at(ve[idx as int], 2) == ve[idx as int].children[2]);
            assert(child_at(ve[idx as int], 3) == ve[idx as int].children[3]);
            assert forall|qq: int|
                0 <= qq < 4 && qq != newq as int implies #[trigger] child_at(ve[idx as int], qq)
                    is None by {
                assert(child_at(vd[idx as int], qq) == child_at(vb[idx as int], qq));
            }
            assert(slot_mass(ve, Some(child_idx)) == original.mass as int);
            assert(slot_pts(ve, Some(child_idx)) == original.pts@.to_multiset());
            assert(children_mass(ve, ve[idx as int]) == original.mass as int);
            assert(children_pts(ve, ve[idx as int]) =~= original.pts@.to_multiset());
            // per-node local facts
            assert forall|j: int| 0 <= j < ve.len() implies node_local_ok(#[trigger] ve[j]) by {
                if j == child_idx as int {
                    assert(node_local_ok(va[j]));
                    assert(is_leaf_spec(ve[j]) == is_leaf_spec(va[j]));
                    assert(0 <= nh2);
                } else if j == idx as int {
                    assert(node_local_ok(va[child_idx as int]));
                    assert(!is_leaf_spec(ve[j]));
                } else if j == cur as int {
                    assert(node_local_ok(va[j]));
                    assert(!is_leaf_spec(ve[j]));
                } else {
                    assert(ve[j] == va[j]);
                    assert(node_local_ok(va[j]));
                }
            }
            assert forall|j: int|
                0 <= j < ve.len() implies #[trigger] children_mass(ve, ve[j]) <= ve[j].mass by {
                if j == cur as int {
                } else if j == idx as int {
                } else if j == child_idx as int {
                    assert(children_mass(ve, ve[j]) == children_mass(va, va[j]));
                    assert(children_mass(va, va[j]) <= va[j].mass);
                } else {
                    assert(children_mass(ve, ve[j]) == children_mass(va, va[j]));
                    assert(children_mass(va, va[j]) <= va[j].mass);
                    assert(ve[j].mass == va[j].mass);
                }
            }
            // the promoted copy's slot layout and the re-centered leaf
            assert(knode.center == original.center);
            assert(newq as int == quad_of(original.center, original.pos));
            assert(child_at(ve[idx as int], quad_of(original.center, original.pos)) == Some(
                child_idx,
            ));
            assert forall|qq: int|
                0 <= qq < 4 && qq != quad_of(original.center, original.pos) implies
                    #[trigger] child_at(ve[idx as int], qq) is None by {
                assert(child_at(ve[idx as int], qq) == child_at(vd[idx as int], qq));
                assert(child_at(vd[idx as int], qq) == child_at(vb[idx as int], qq));
            }
            assert(ve[child_idx as int].half_size == original.half_size / 2);
            assert(ve[child_idx as int].center.x == quad_center_x(
                original.center,
                original.half_size / 2,
                quad_of(original.center, original.pos),
            ));
            assert(ve[child_idx as int].center.y == quad_center_y(
                original.center,
                original.half_size / 2,
                quad_of(original.center, original.pos),
            ));
            assert(forall|j: int|
                0 <= j < va.len() && j != cur as int && j != child_idx as int ==> ve[j] == va[j]);
            assert(forall|j: int| 0 <= j < ve.len() ==> #[trigger] node_children_ok(ve, j));
            assert(forall|j: int| 0 <= j < ve.len() ==> node_local_ok(#[trigger] ve[j]));
            assert(forall|j: int|
                0 <= j < va.len() && j != cur as int ==> #[trigger] children_mass(ve, ve[j])
                    == children_mass(va, va[j]) && children_pts(ve, ve[j]) == children_pts(
                    va,
                    va[j],
                ));
            assert(forall|j: int|
                0 <= j < ve.len() ==> #[trigger] children_mass(ve, ve[j]) <= ve[j].mass);
        }
        idx
    }

    /// One walk step that finds a leaf in the target slot: the leaf is
    /// promoted to an internal node that takes over its region, the
    /// original leaf drops one level down, and the walk continues from the
    /// promoted node, which is returned.
    #[verifier::rlimit(100)]
    #[verifier::spinoff_prover]
    fn step_promote(
        &mut self,
        cur: usize,
        q: usize,
        child_idx: usize,
        position: Vec2i,
        mass: u64,
        Ghost(base): Ghost<QuadTree>,
    ) -> (next: usize)
        requires
            insert_inv(*old(self), base, cur as int, (PointMass { pos: position, mass })),
            old(self).vec@[cur as int].half_size >= 1,
            q as int == quad_of(old(self).vec@[cur as int].center, position),
            q < 4,
            child_at(old(self).vec@[cur as int], q as int) == Some(child_idx),
            is_leaf_spec(old(self).vec@[child_idx as int]),
        ensures
            insert_inv(*final(self), base, next as int, (PointMass { pos: position, mass })),
            final(self).vec@[next as int].half_size < old(self).vec@[cur as int].half_size,
    {
        let ghost p = PointMass { pos: position, mass };
        let ghost va = self.vec@;
        let ghost original = va[child_idx as int];
        proof {
            assert(node_children_ok(va, cur as int));
            assert((child_idx as int) < va.len());
            assert(node_local_ok(va[child_idx as int]));
            assert(va[child_idx as int].half_size == va[cur as int].half_size / 2);
            assert(child_at(va[cur as int], 0) == va[cur as int].children[0]);
            assert(child_at(va[cur as int], 1) == va[cur as int].children[1]);
            assert(child_at(va[cur as int], 2) == va[cur as int].children[2]);
            assert(child_at(va[cur as int], 3) == va[cur as int].children[3]);
            assert(slot_mass(va, Some(child_idx)) == va[child_idx as int].mass);
            assert(va[child_idx as int].mass <= children_mass(va, va[cur as int]));
            assert(va[child_idx as int].mass + mass <= MASS_LIMIT);
        }
        let idx = self.promote_structure(cur, q, child_idx, Ghost(p), Ghost(base));
        let ghost ve = self.vec@;
        self.absorb_point(idx, position, mass);
        proof {
            let vf = self.vec@;
            let r = self.root as int;
            lemma_structure_frame(ve, vf);
            lemma_absorb_mass_frame(ve, vf, idx, p, cur as int, q as int);
            lemma_absorb_pts_frame(ve, vf, idx, p, cur as int, q as int);
            vstd::seq_lib::to_multiset_build(original.pts@, p);
            // at cur the pending point is now counted exactly once below
            assert(children_mass(vf, vf[cur as int]) == children_mass(ve, ve[cur as int])
                + p.mass);
            assert(children_pts(vf, vf[cur as int]) == children_pts(ve, ve[cur as int]).insert(
                p,
            ));
            assert(children_mass(vf, vf[idx as int]) == children_mass(ve, ve[idx as int]));
            assert(children_pts(vf, vf[idx as int]) == children_pts(ve, ve[idx as int]));
            assert forall|j: int|
                0 <= j < va.len() && j != cur as int && j != child_idx as int implies
                    #[trigger] children_mass(vf, vf[j]) == children_mass(va, va[j])
                    && children_pts(vf, vf[j]) == children_pts(va, va[j]) && vf[j] == va[j] by {
                assert(ve[j] == va[j]);
                assert(children_mass(vf, vf[j]) == children_mass(ve, ve[j]));
                assert(children_pts(vf, vf[j]) == children_pts(ve, ve[j]));
                assert(children_mass(ve, ve[j]) == children_mass(va, va[j]));
                assert(children_pts(ve, ve[j]) == children_pts(va, va[j]));
                assert(vf[j] == ve[j]);
            }
            assert forall|j: int| 0 <= j < vf.len() implies node_local_ok(#[trigger] vf[j]) by {
                if j == idx as int {
                } else {
                    assert(vf[j] == ve[j]);
                    assert(node_local_ok(ve[j]));
                }
            }
            assert forall|j: int|
                0 <= j < vf.len() implies #[trigger] children_mass(vf, vf[j]) <= vf[j].mass by {
                if j == cur as int {
                    assert(children_mass(ve, ve[j]) == children_mass(va, va[j]));
                    assert(children_mass(va, va[j]) + mass <= va[j].mass);
                    assert(vf[j].mass == va[j].mass);
                } else if j == idx as int {
                    assert(children_mass(vf, vf[j]) == original.mass as int);
                    assert(vf[j].mass == original.mass + mass);
                } else {
                    assert(children_mass(vf, vf[j]) == children_mass(ve, ve[j]));
                    assert(children_mass(ve, ve[j]) <= ve[j].mass);
                    assert(vf[j] == ve[j]);
                }
            }
            assert(nodes_ok(vf));
            if self.complete@ {
                assert(gap_ok(va, cur as int, p));
                assert(child_at(va[cur as int], q as int) == Some(child_idx));
                assert(!is_leaf_spec(va[cur as int])) by {
                    if is_leaf_spec(va[cur as int]) {
                        assert(child_at(va[cur as int], q as int) is None);
                    }
                }
                assert forall|i: int|
                    0 <= i < vf.len() && i != idx as int && !is_leaf_spec(vf[i]) implies vf[i].mass
                        as int == #[trigger] children_mass(vf, vf[i]) && vf[i].pts@.to_multiset()
                        == children_pts(vf, vf[i]) by {
                    if i == cur as int {
                        assert(!is_leaf_spec(va[i]));
                        assert(va[i].mass as int == children_mass(va, va[i]) + p.mass);
                        assert(va[i].pts@.to_multiset() == children_pts(va, va[i]).insert(p));
                        assert(children_mass(ve, ve[i]) == children_mass(va, va[i]));
                        assert(children_pts(ve, ve[i]) == children_pts(va, va[i]));
                        assert(vf[i].mass == va[i].mass && vf[i].pts == va[i].pts);
                    } else if i == child_idx as int {
                        assert(is_leaf_spec(ve[i]));
                        assert(vf[i] == ve[i]);
                    } else {
                        assert(vf[i] == va[i]);
                        assert(!is_leaf_spec(va[i]));
                        assert(va[i].mass as int == children_mass(va, va[i]));
                        assert(va[i].pts@.to_multiset() == children_pts(va, va[i]));
                    }
                }
                assert(vf[idx as int].pts@ == original.pts@.push(p));
                assert(vf[idx as int].pts@.to_multiset() == original.pts@.to_multiset().insert(
                    p,
                ));
                assert(children_pts(vf, vf[idx as int]) == original.pts@.to_multiset());
                assert(vf[idx as int].mass as int == children_mass(vf, vf[idx as int])
                    + p.mass);
                assert(vf[idx as int].pts@.to_multiset() == children_pts(
                    vf,
                    vf[idx as int],
                ).insert(p));
                assert(gap_ok(vf, idx as int, p));
                assert forall|i: int|
                    0 <= i < vf.len() && i != r implies (#[trigger] vf[i]).pts@.len() >= 1 by {
                    if i == idx as int {
                    } else if i == child_idx as int {
                        assert(vf[i].pts@ == va[i].pts@);
                        assert((child_idx as int) != r);
                    } else if i == cur as int {
                        assert(vf[i].pts@ == va[i].pts@);
                    } else {
                        assert(vf[i] == va[i]);
                    }
                }
            }
            // the root is untouched
            assert((child_idx as int) != r);
            assert((idx as int) != r);
            assert(vf[r].mass == va[r].mass && vf[r].com_x == va[r].com_x && vf[r].com_y
                == va[r].com_y && vf[r].pts == va[r].pts && vf[r].half_size == va[r].half_size
                && vf[r].center == va[r].center) by {
                if cur as int != r {
                    assert(vf[r] == va[r]);
                }
            }
            assert(!is_leaf_spec(vf[r])) by {
                if cur as int == r {
                    assert(!is_leaf_spec(ve[r]));
                    assert(vf[r].children == ve[r].children);
                } else {
                    assert(!is_leaf_spec(va[r]));
                    assert(vf[r] == va[r]);
                }
            }
            assert(children_mass(vf, vf[idx as int]) + mass <= vf[idx as int].mass);
            assert(!is_leaf_spec(vf[idx as int]));
            assert(vf[idx as int].half_size == original.half_size);
            assert(va[cur as int].half_size >= 1);
            assert(vf[idx as int].half_size < va[cur as int].half_size);
            if descent_completes(base.vec@, base.root as int, position) {
                assert(descent_completes(va, cur as int, position));
                let qd = quad_sel(
                    va[cur as int].center.x as int,
                    va[cur as int].center.y as int,
                    position.x as int,
                    position.y as int,
                );
                assert(qd == q as int);
                assert(va[cur as int].half_size >= 1);
                let kcx = original.center.x as int;
                let kcy = original.center.y as int;
                let kh = original.half_size as int;
                let lpx = original.pos.x as int;
                let lpy = original.pos.y as int;
                assert(promo_resolves(kcx, kcy, kh, lpx, lpy, position.x as int, position.y
                    as int));
                assert(kh >= 1);
                let newq_s = quad_sel(kcx, kcy, lpx, lpy);
                assert(newq_s == quad_of(original.center, original.pos));
                let q2 = quad_sel(kcx, kcy, position.x as int, position.y as int);
                assert(descent_completes(ve, idx as int, position)) by {
                    assert(ve[idx as int].center == original.center);
                    assert(ve[idx as int].half_size == original.half_size);
                    if q2 != newq_s {
                        assert(child_at(ve[idx as int], q2) is None);
                    } else {
                        assert(child_at(ve[idx as int], q2) == Some(child_idx));
                        assert(is_leaf_spec(ve[child_idx as int]));
                        assert(ve[child_idx as int].pos == original.pos);
                        assert(ve[child_idx as int].half_size == original.half_size / 2);
                        assert(ve[child_idx as int].center.x as int == shift_x(
                            kcx,
                            kh / 2,
                            newq_s,
                        ));
                        assert(ve[child_idx as int].center.y as int == shift_y(
                            kcy,
                            kh / 2,
                            newq_s,
                        ));
                        assert(promo_resolves(
                            shift_x(kcx, kh / 2, newq_s),
                            shift_y(kcy, kh / 2, newq_s),
                            kh / 2,
                            lpx,
                            lpy,
                            position.x as int,
                            position.y as int,
                        ));
                    }
                }
                assert forall|j: int|
                    0 <= j < ve.len() ==> (#[trigger] vf[j]).children == ve[j].children
                        && vf[j].center == ve[j].center && vf[j].half_size == ve[j].half_size && (
                    is_leaf_spec(ve[j]) ==> vf[j].pos == ve[j].pos) by {}
                lemma_descent_frame(ve, vf, idx as int, position);
            }
            assert((idx as int) >= base.vec@.len());
            assert forall|j: int|
                0 <= j < base.vec@.len() implies insert_node_evolution(
                base.vec@[j],
                #[trigger] vf[j],
                p,
            ) by {
                assert(insert_node_evolution(base.vec@[j], va[j], p));
                if j == cur as int {
                    assert(va[j].pts@ == base.vec@[j].pts@.push(p));
                    assert(vf[j].pts == va[j].pts && vf[j].mass == va[j].mass && vf[j].com_x
                        == va[j].com_x && vf[j].com_y == va[j].com_y && vf[j].center
                        == va[j].center && vf[j].half_size == va[j].half_size && vf[j].pos
                        == va[j].pos);
                } else if j == child_idx as int {
                    assert(va[j].pts@ == base.vec@[j].pts@) by {
                        if va[j].pts@ != base.vec@[j].pts@ {
                            assert(va[j].half_size >= va[cur as int].half_size);
                            assert(va[j].half_size < va[cur as int].half_size);
                        }
                    }
                    assert(is_leaf_spec(va[j]));
                    assert(is_leaf_spec(vf[j]));
                    assert(vf[j].pts == va[j].pts && vf[j].mass == va[j].mass && vf[j].com_x
                        == va[j].com_x && vf[j].com_y == va[j].com_y && vf[j].pos == va[j].pos);
                    assert(vf[j].children == va[j].children) by {
                        assert(vf[j].children[0] is None && vf[j].children[1] is None
                            && vf[j].children[2] is None && vf[j].children[3] is None);
                        assert(va[j].children[0] is None && va[j].children[1] is None
                            && va[j].children[2] is None && va[j].children[3] is None);
                        assert(vf[j].children =~= va[j].children);
                    }
                    assert(0 <= vf[j].half_size <= va[j].half_size);
                } else {
                    assert(vf[j] == va[j]);
                }
            }
            assert forall|j: int|
                0 <= j < base.vec@.len() && (#[trigger] vf[j]).pts@ != base.vec@[j].pts@ implies
                vf[j].half_size >= vf[idx as int].half_size by {
                if j == cur as int {
                    assert(vf[j].half_size == va[j].half_size);
                    assert(vf[idx as int].half_size < va[cur as int].half_size);
                } else if j == child_idx as int {
                    assert(vf[j].pts@ == base.vec@[j].pts@);
                } else {
                    assert(vf[j] == va[j]);
                    assert(va[j].half_size >= va[cur as int].half_size);
                    assert(vf[idx as int].half_size < va[cur as int].half_size);
                }
            }
            assert(insert_inv(*self, base, idx as int, p));
        }
        idx
    }
    /// One walk step into an internal child: the child takes the point
    /// into its aggregates and the walk continues from it.
    #[verifier::rlimit(100)]
    #[verifier::spinoff_prover]
    fn step_descend(
        &mut self,
        cur: usize,
        q: usize,
        child_idx: usize,
        position: Vec2i,
        mass: u64,
        Ghost(base): Ghost<QuadTree>,
    )
        requires
            insert_inv(*old(self), base, cur as int, (PointMass { pos: position, mass })),
            old(self).vec@[cur as int].half_size >= 1,
            q as int == quad_of(old(self).vec@[cur as int].center, position),
            q < 4,
            child_at(old(self).vec@[cur as int], q as int) == Some(child_idx),
            !is_leaf_spec(old(self).vec@[child_idx as int]),
        ensures
            insert_inv(*final(self), base, child_idx as int, (PointMass { pos: position, mass })),
            final(self).vec@[child_idx as int].half_size < old(self).vec@[cur as int].half_size,
            final(self).vec@.len() == old(self).vec@.len(),
    {
        let ghost p = PointMass { pos: position, mass };
        let ghost va = self.vec@;
        proof {
            assert(node_children_ok(va, cur as int));
            assert(child_at(va[cur as int], q as int) == Some(child_idx));
            assert((child_idx as int) < va.len());
            assert(node_local_ok(va[child_idx as int]));
            assert(va[child_idx as int].half_size == va[cur as int].half_size / 2);
            assert(va[cur as int].half_size >= 1);
            assert(child_at(va[cur as int], 0) == va[cur as int].children[0]);
            assert(child_at(va[cur as int], 1) == va[cur as int].children[1]);
            assert(child_at(va[cur as int], 2) == va[cur as int].children[2]);
            assert(child_at(va[cur as int], 3) == va[cur as int].children[3]);
            assert(slot_mass(va, Some(child_idx)) == va[child_idx as int].mass);
            assert(va[child_idx as int].mass <= children_mass(va, va[cur as int]));
            assert(va[child_idx as int].mass + mass <= MASS_LIMIT);
        }
        self.absorb_point(child_idx, position, mass);
        proof {
            let vf = self.vec@;
            let r = self.root as int;
            lemma_structure_frame(va, vf);
            lemma_absorb_mass_frame(va, vf, child_idx, p, cur as int, q as int);
            lemma_absorb_pts_frame(va, vf, child_idx, p, cur as int, q as int);
            vstd::seq_lib::to_multiset_build(va[child_idx as int].pts@, p);
            assert forall|j: int|
                0 <= j < vf.len() implies #[trigger] children_mass(vf, vf[j]) <= vf[j].mass by {
                if j == cur as int {
                    assert(children_mass(va, va[j]) + mass <= va[j].mass);
                } else {
                    assert(children_mass(vf, vf[j]) == children_mass(va, va[j]));
                    assert(children_mass(va, va[j]) <= va[j].mass);
                }
            }
            assert forall|j: int| 0 <= j < vf.len() implies node_local_ok(#[trigger] vf[j]) by {
                if j == child_idx as int {
                } else {
                    assert(vf[j] == va[j]);
                    assert(node_local_ok(va[j]));
                }
            }
            assert(nodes_ok(vf));
            if self.complete@ {
                assert(gap_ok(va, cur as int, p));
                assert(!is_leaf_spec(va[cur as int]));
                assert forall|i: int|
                    0 <= i < vf.len() && i != child_idx as int && !is_leaf_spec(
                        vf[i],
                    ) implies vf[i].mass as int == #[trigger] children_mass(vf, vf[i])
                        && vf[i].pts@.to_multiset() == children_pts(vf, vf[i]) by {
                    if i == cur as int {
                        assert(va[i].mass as int == children_mass(va, va[i]) + p.mass);
                        assert(va[i].pts@.to_multiset() == children_pts(va, va[i]).insert(p));
                        assert(children_mass(vf, vf[i]) == children_mass(va, va[i]) + p.mass);
                        assert(children_pts(vf, vf[i]) == children_pts(va, va[i]).insert(p));
                        assert(vf[i].mass == va[i].mass && vf[i].pts == va[i].pts);
                    } else {
                        assert(vf[i] == va[i]);
                        assert(!is_leaf_spec(va[i]));
                        assert(va[i].mass as int == children_mass(va, va[i]));
                        assert(va[i].pts@.to_multiset() == children_pts(va, va[i]));
                        assert(children_mass(vf, vf[i]) == children_mass(va, va[i]));
                        assert(children_pts(vf, vf[i]) == children_pts(va, va[i]));
                    }
                }
                if !is_leaf_spec(vf[child_idx as int]) {
                    assert(!is_leaf_spec(va[child_idx as int]));
                    assert(va[child_idx as int].mass as int == children_mass(
                        va,
                        va[child_idx as int],
                    ));
                    assert(va[child_idx as int].pts@.to_multiset() == children_pts(
                        va,
                        va[child_idx as int],
                    ));
                    assert(children_mass(vf, vf[child_idx as int]) == children_mass(
                        va,
                        va[child_idx as int],
                    ));
                    assert(children_pts(vf, vf[child_idx as int]) == children_pts(
                        va,
                        va[child_idx as int],
                    ));
                    assert(vf[child_idx as int].mass as int == children_mass(
                        vf,
                        vf[child_idx as int],
                    ) + p.mass);
                    assert(vf[child_idx as int].pts@.to_multiset() == children_pts(
                        vf,
                        vf[child_idx as int],
                    ).insert(p));
                }
                assert(gap_ok(vf, child_idx as int, p));
                assert forall|i: int|
                    0 <= i < vf.len() && i != r implies (#[trigger] vf[i]).pts@.len() >= 1 by {
                    if i == child_idx as int {
                    } else {
                        assert(vf[i] == va[i]);
                    }
                }
            }
            assert((child_idx as int) != r);
            assert(vf[r] == va[r]);
            assert(is_leaf_spec(vf[r]) ==> child_idx as int == r) by {
                assert(!is_leaf_spec(va[r]));
            }
            assert(children_mass(vf, vf[child_idx as int]) == children_mass(
                va,
                va[child_idx as int],
            ));
            assert(children_mass(va, va[child_idx as int]) <= va[child_idx as int].mass);
            assert(children_mass(vf, vf[child_idx as int]) + mass
                <= vf[child_idx as int].mass);
            assert(!is_leaf_spec(vf[child_idx as int]));
            assert(vf[child_idx as int].half_size == va[child_idx as int].half_size);
            assert(vf[child_idx as int].half_size < va[cur as int].half_size);
            if descent_completes(base.vec@, base.root as int, position) {
                assert(descent_completes(va, cur as int, position));
                let qd = quad_sel(
                    va[cur as int].center.x as int,
                    va[cur as int].center.y as int,
                    position.x as int,
                    position.y as int,
                );
                assert(qd == q as int);
                assert(va[cur as int].half_size >= 1);
                assert(0 <= va[child_idx as int].half_size < va[cur as int].half_size);
                assert(descent_completes(va, child_idx as int, position));
                assert forall|j: int|
                    0 <= j < va.len() ==> (#[trigger] vf[j]).children == va[j].children
                        && vf[j].center == va[j].center && vf[j].half_size == va[j].half_size && (
                    is_leaf_spec(va[j]) ==> vf[j].pos == va[j].pos) by {}
                lemma_descent_frame(va, vf, child_idx as int, position);
            }
            assert forall|j: int|
                0 <= j < base.vec@.len() implies insert_node_evolution(
                base.vec@[j],
                #[trigger] vf[j],
                p,
            ) by {
                assert(insert_node_evolution(base.vec@[j], va[j], p));
                if j == child_idx as int {
                    assert(va[j].pts@ == base.vec@[j].pts@) by {
                        if va[j].pts@ != base.vec@[j].pts@ {
                            assert(va[j].half_size >= va[cur as int].half_size);
                            assert(va[j].half_size < va[cur as int].half_size);
                        }
                    }
                    assert(!is_leaf_spec(va[j]));
                    assert(va[j] == base.vec@[j]);
                    assert(vf[j] == absorbed(va[j], p));
                    assert((mass as int) * (position.x as int) <= (mass as int) * (
                    COORD_LIMIT as int) && -((mass as int) * (COORD_LIMIT as int)) <= (
                    mass as int) * (position.x as int) && (mass as int) * (position.y as int)
                        <= (mass as int) * (COORD_LIMIT as int) && -((mass as int) * (
                    COORD_LIMIT as int)) <= (mass as int) * (position.y as int))
                        by (nonlinear_arith)
                        requires
                            -COORD_LIMIT <= position.x <= COORD_LIMIT,
                            -COORD_LIMIT <= position.y <= COORD_LIMIT,
                            0 <= mass,
                    ;
                    assert(node_local_ok(va[j]));
                    assert(va[j].mass + mass <= MASS_LIMIT);
                    assert(vf[j].pts@ == va[j].pts@.push(p));
                    assert(vf[j].mass == va[j].mass + p.mass);
                    assert(vf[j].com_x == va[j].com_x + p.mass * p.pos.x);
                    assert(vf[j].com_y == va[j].com_y + p.mass * p.pos.y);
                    assert(vf[j].center == va[j].center && vf[j].half_size == va[j].half_size);
                    assert(vf[j].pos == va[j].pos);
                } else {
                    assert(vf[j] == va[j]);
                }
            }
            assert forall|j: int|
                0 <= j < base.vec@.len() && (#[trigger] vf[j]).pts@ != base.vec@[j].pts@ implies
                vf[j].half_size >= vf[child_idx as int].half_size by {
                if j != child_idx as int {
                    assert(vf[j] == va[j]);
                    assert(va[j].half_size >= va[cur as int].half_size);
                    assert(vf[child_idx as int].half_size < va[cur as int].half_size);
                }
            }
            assert(insert_inv(*self, base, child_idx as int, p));
        }
    }
}

/// The shape held at each step of the insertion walk from the root: the
/// tree differs from `base` only in its arena and its (already extended)
/// insertion record; the node `cur` and all its ancestors, the root
/// included, already hold the pending point `p` in their aggregates, while
/// below `cur` nothing has changed yet.
spec fn insert_inv(t: QuadTree, base: QuadTree, cur: int, p: PointMass) -> bool {
    let v = t.vec@;
    &&& t.root == base.root
    &&& t.bounds == base.bounds
    &&& t.inserted@ == base.inserted@.push(p)
    &&& t.complete == base.complete
    &&& base.vec@.len() <= v.len()
    &&& (t.root as int) < v.len()
    &&& 0 <= cur < v.len()
    &&& -COORD_LIMIT <= p.pos.x <= COORD_LIMIT
    &&& -COORD_LIMIT <= p.pos.y <= COORD_LIMIT
    &&& nodes_ok(v)
    &&& not_a_child(v, t.root as int)
    &&& t.bounds_ok()
    &&& v[t.root as int].pts@ == t.inserted@
    &&& children_mass(v, v[cur]) + p.mass <= v[cur].mass
    &&& (is_leaf_spec(v[t.root as int]) ==> cur == t.root as int)
    &&& (is_leaf_spec(v[cur]) ==> cur == t.root as int)
    &&& v[cur].pts@.len() >= 1
    &&& v[t.root as int].mass == base.total_mass() + p.mass
    &&& v[t.root as int].com_x == base.total_weighted_x() + p.mass * p.pos.x
    &&& v[t.root as int].com_y == base.total_weighted_y() + p.mass * p.pos.y
    &&& (forall|j: int|
        0 <= j < base.vec@.len() ==> insert_node_evolution(base.vec@[j], #[trigger] v[j], p))
    &&& (forall|j: int|
        0 <= j < base.vec@.len() && (#[trigger] v[j]).pts@ != base.vec@[j].pts@ ==> v[j].half_size
            >= v[cur].half_size)
    &&& (cur < base.vec@.len() ==> v[cur].pts@ == base.vec@[cur].pts@.push(p))
    &&& (descent_completes(base.vec@, base.root as int, p.pos) ==> descent_completes(
        v,
        cur,
        p.pos,
    ))
    &&& (t.complete@ ==> gap_ok(v, cur, p))
    &&& (t.complete@ ==> forall|i: int|
        0 <= i < v.len() && i != t.root as int ==> (#[trigger] v[i]).pts@.len() >= 1)
}

/// What one insertion leaves behind: a well-formed tree over the extended
/// insertion record, with the root's aggregates grown by exactly the new
/// point's contribution.
spec fn insert_done(t: QuadTree, base: QuadTree, p: PointMass) -> bool {
    &&& t.wf()
    &&& base.vec@.len() <= t.vec@.len()
    &&& (forall|j: int|
        0 <= j < base.vec@.len() ==> insert_node_evolution(base.vec@[j], #[trigger] t.vec@[j], p))
    &&& t.root == base.root
    &&& t.bounds == base.bounds
    &&& t.inserted@ == base.inserted@.push(p)
    &&& (t.complete@ ==> base.complete@)
    &&& t.total_mass() == base.total_mass() + p.mass
    &&& t.total_weighted_x() == base.total_weighted_x() + p.mass * p.pos.x
    &&& t.total_weighted_y() == base.total_weighted_y() + p.mass * p.pos.y
}

/// Sum of the masses in the first `k` child slots of `n`.
pub open spec fn partial_mass(v: Seq<Node>, n: Node, k: int) -> int
    decreases k,
{
    if k <= 0 {
        0
    } else {
        partial_mass(v, n, k - 1) + slot_mass(v, child_at(n, k - 1))
    }
}

/// The points in the first `k` child slots of `n`.
pub open spec fn partial_pts(v: Seq<Node>, n: Node, k: int) -> Multiset<PointMass>
    decreases k,
{
    if k <= 0 {
        Multiset::empty()
    } else {
        partial_pts(v, n, k - 1).add(slot_pts(v, child_at(n, k - 1)))
    }
}

/// A sequence of nodes each standing for exactly one point carries as many
/// points as it has nodes.
proof fn lemma_bodies_count(s: Seq<Node>)
    requires
        forall|k: int| 0 <= k < s.len() ==> (#[trigger] s[k]).pts@.len() == 1,
    ensures
        bodies_pts(s).len() == s.len(),
    decreases s.len(),
{
    broadcast use vstd::seq_lib::group_to_multiset_ensures;
    broadcast use vstd::multiset::group_multiset_axioms;

    if s.len() > 0 {
        assert forall|k: int|
            0 <= k < s.drop_last().len() implies (#[trigger] s.drop_last()[k]).pts@.len()
            == 1 by {
            assert(s.drop_last()[k] == s[k]);
        }
        lemma_bodies_count(s.drop_last());
        assert(s.last().pts@.to_multiset().len() == 1);
    }
}

/// Sums of masses are never negative.
proof fn lemma_bodies_mass_nonneg(s: Seq<Node>)
    ensures
        bodies_mass(s) >= 0,
    decreases s.len(),
{
    if s.len() > 0 {
        lemma_bodies_mass_nonneg(s.drop_last());
    }
}

/// Sums of stacked masses are never negative.
proof fn lemma_stack_mass_nonneg(v: Seq<Node>, st: Seq<usize>)
    ensures
        stack_mass(v, st) >= 0,
    decreases st.len(),
{
    if st.len() > 0 {
        lemma_stack_mass_nonneg(v, st.drop_last());
    }
}

/// Whether the node is far enough from `position` for the threshold. The
/// square of the exact comparison `2 * half_size / distance < t` is
/// computed over the weighted sums in wide integers; a product that would
/// leave the wide range is itself already larger than any left-hand side.
fn is_far(node: &Node, position: Vec2i, t: u64) -> (res: bool)
    requires
        node_local_ok(*node),
        -COORD_LIMIT <= position.x <= COORD_LIMIT,
        -COORD_LIMIT <= position.y <= COORD_LIMIT,
        t <= THETA_LIMIT,
    ensures
        res == far_spec(*node, position, t),
{
    proof {
        assert((node.mass as int) * (position.x as int) <= (node.mass as int) * (
        COORD_LIMIT as int) && -((node.mass as int) * (COORD_LIMIT as int)) <= (node.mass as int)
            * (position.x as int) && (node.mass as int) * (position.y as int) <= (node.mass as int)
            * (COORD_LIMIT as int) && -((node.mass as int) * (COORD_LIMIT as int)) <= (
        node.mass as int) * (position.y as int)) by (nonlinear_arith)
            requires
                -COORD_LIMIT <= position.x <= COORD_LIMIT,
                -COORD_LIMIT <= position.y <= COORD_LIMIT,
                0 <= node.mass,
        ;
        assert((node.mass as int) * (COORD_LIMIT as int) <= (MASS_LIMIT as int) * (
        COORD_LIMIT as int)) by (nonlinear_arith)
            requires
                0 <= node.mass <= MASS_LIMIT,
        ;
    }
    let m = node.mass as i128;
    let dx: i128 = node.com_x - m * (position.x as i128);
    let dy: i128 = node.com_y - m * (position.y as i128);
    proof {
        assert(dx * dx <= 0x10000000000000000000000000000i128 && 0 <= dx * dx && dy * dy
            <= 0x10000000000000000000000000000i128 && 0 <= dy * dy) by (nonlinear_arith)
            requires
                -2000000000000000i128 <= dx <= 2000000000000000i128,
                -2000000000000000i128 <= dy <= 2000000000000000i128,
        ;
    }
    let dsq: i128 = dx * dx + dy * dy;
    proof {
        assert(node.center.x - node.half_size >= -CENTER_CAP);
        assert(node.center.x + node.half_size <= CENTER_CAP);
        assert(node.half_size + node.half_size <= 2 * CENTER_CAP);
    }
    let h = node.half_size as i128;
    proof {
        assert(0 <= h <= CENTER_CAP);
        assert(0 <= 2 * h * m * (THETA_ONE as int) <= 10000000000000000000i128)
            by (nonlinear_arith)
            requires
                0 <= h <= CENTER_CAP as int,
                0 <= m <= MASS_LIMIT as int,
        ;
        assert((2 * h * m * (THETA_ONE as int)) * (2 * h * m * (THETA_ONE as int))
            <= 100000000000000000000000000000000000000i128 && 0 <= (2 * h * m * (
        THETA_ONE as int)) * (2 * h * m * (THETA_ONE as int))) by (nonlinear_arith)
            requires
                0 <= 2 * h * m * (THETA_ONE as int) <= 10000000000000000000i128,
        ;
    }
    let lhs0: i128 = 2 * h * m * (THETA_ONE as i128);
    let lhs: i128 = lhs0 * lhs0;
    proof {
        assert(0 <= (t as int) * (t as int) <= (THETA_LIMIT as int) * (THETA_LIMIT as int))
            by (nonlinear_arith)
            requires
                0 <= t <= THETA_LIMIT,
        ;
    }
    let t2: i128 = (t as i128) * (t as i128);
    if t2 != 0 && dsq != 0 && dsq > i128::MAX / t2 {
        proof {
            let q = i128::MAX as int / t2 as int;
            vstd::arithmetic::div_mod::lemma_fundamental_div_mod(i128::MAX as int, t2 as int);
            assert(t2 * dsq >= t2 * (q + 1)) by (nonlinear_arith)
                requires
                    dsq >= q + 1,
                    t2 >= 1,
            ;
            assert((t2 as int) * (q + 1) == t2 * q + t2) by (nonlinear_arith);
            assert(t2 * dsq > i128::MAX);
            assert(lhs < t2 * dsq);
        }
        true
    } else {
        proof {
            assert(0 <= t2 * dsq) by (nonlinear_arith)
                requires
                    0 <= t2,
                    0 <= dsq,
            ;
            if t2 == 0 || dsq == 0 {
                assert(t2 * dsq == 0) by (nonlinear_arith)
                    requires
                        t2 == 0 || dsq == 0,
                ;
            }
            if t2 != 0 && dsq != 0 {
                let q = i128::MAX as int / t2 as int;
                vstd::arithmetic::div_mod::lemma_fundamental_div_mod(i128::MAX as int, t2 as int);
                assert(t2 * dsq <= t2 * q) by (nonlinear_arith)
                    requires
                        dsq <= q,
                        t2 >= 1,
                ;
                assert(t2 * q <= i128::MAX);
            }
        }
        lhs < t2 * dsq
    }
}

/// Center of the child region with quadrant index `q`, for a parent
/// centered at `center` whose children have half size `nh`.
fn child_center(center: Vec2i, nh: i64, q: usize) -> (c: Vec2i)
    requires
        q < 4,
        0 <= nh,
        center.x - nh >= -CENTER_CAP,
        center.x + nh <= CENTER_CAP,
        center.y - nh >= -CENTER_CAP,
        center.y + nh <= CENTER_CAP,
    ensures
        c.x == quad_center_x(center, nh as int, q as int),
        c.y == quad_center_y(center, nh as int, q as int),
{
    if q == 0 {
        Vec2i { x: center.x - nh, y: center.y - nh }
    } else if q == 1 {
        Vec2i { x: center.x + nh, y: center.y - nh }
    } else if q == 2 {
        Vec2i { x: center.x + nh, y: center.y + nh }
    } else {
        Vec2i { x: center.x - nh, y: center.y + nh }
    }
}

} // verus!
