//! The properties the library warrants of every built tree and every
//! step, stated once, in one place, as proved facts.

use vstd::prelude::*;
use crate::codec::{file_text, parse_text};
use crate::entity::Entity;
use crate::gravtree::GravTree;
use crate::node::{arrange_spec, lemma_arrange_len, sum_mass, Node};
use crate::utilities::div_trunc;

verus! {

/// Round trip: writing a tree's bodies to text and reading them back
/// yields an equal multiset of body records.
pub proof fn law_round_trip(t: GravTree)
    requires
        t.wf(),
    ensures
        parse_text(file_text(t.root.bodies())) is Some,
        parse_text(file_text(t.root.bodies()))->0.to_multiset() == t.root.bodies().to_multiset(),
{
    t.root.lemma_wf_mass(t.max_pts as int);
    crate::codec::lemma_file_round_trip(t.root.bodies());
}

/// Mass conservation: a built tree's root carries exactly the sum of
/// the masses of the bodies under it.
pub proof fn law_mass_conservation(t: GravTree)
    requires
        t.wf(),
    ensures
        t.root.properties().total_mass == sum_mass(t.root.bodies()),
{
    t.root.lemma_wf_mass(t.max_pts as int);
}

/// Center-of-mass consistency: every interior node's center of mass is
/// exactly the mass-weighted combination of its children's centers,
/// under the fixed-point division the library computes with.
pub proof fn law_center_of_mass(n: Node, max_pts: int)
    requires
        n.wf(max_pts),
        n is Interior,
    ensures
        ({
            let lp = n->Interior_left.properties();
            let rp = n->Interior_right.properties();
            &&& n.properties().total_mass == lp.total_mass + rp.total_mass
            &&& n.properties().com_x == div_trunc(
                lp.total_mass * lp.com_x + rp.total_mass * rp.com_x,
                lp.total_mass + rp.total_mass,
            )
            &&& n.properties().com_y == div_trunc(
                lp.total_mass * lp.com_y + rp.total_mass * rp.com_y,
                lp.total_mass + rp.total_mass,
            )
            &&& n.properties().com_z == div_trunc(
                lp.total_mass * lp.com_z + rp.total_mass * rp.com_z,
                lp.total_mass + rp.total_mass,
            )
        }),
{
}

/// Bounding-box containment: every body under a node lies inside that
/// node's axis-aligned bounding box.
pub proof fn law_bounding_box(n: Node, max_pts: int)
    requires
        n.wf(max_pts),
    ensures
        forall|i: int|
            0 <= i < n.bodies().len() ==> {
                let e = #[trigger] n.bodies()[i];
                &&& n.properties().x_min <= e.x <= n.properties().x_max
                &&& n.properties().y_min <= e.y <= n.properties().y_max
                &&& n.properties().z_min <= e.z <= n.properties().z_max
            },
{
    n.lemma_wf_box(max_pts);
}

/// Count preservation: one step keeps exactly as many bodies as it was
/// given. `time_step` pins its result's bodies to this arrangement.
pub proof fn law_count_preservation(t: GravTree)
    requires
        t.wf(),
    ensures
        arrange_spec(t.spec_next_bodies(), t.max_pts as int).len() == t.root.bodies().len(),
{
    lemma_arrange_len(t.spec_next_bodies(), t.max_pts as int);
}

/// Partition correctness: in an interior node, every body of the lower
/// child sits at or below the split coordinate on the split axis, and
/// every body of the upper child at or above it.
pub proof fn law_partition(n: Node, max_pts: int)
    requires
        n.wf(max_pts),
        n is Interior,
    ensures
        forall|i: int|
            0 <= i < n->Interior_left.bodies().len()
                ==> #[trigger] n->Interior_left.bodies()[i].coord(n->Interior_split_dimension)
                <= n->Interior_split_value,
        forall|i: int|
            0 <= i < n->Interior_right.bodies().len()
                ==> #[trigger] n->Interior_right.bodies()[i].coord(n->Interior_split_dimension)
                >= n->Interior_split_value,
{
}

/// Determinism: the bodies of any two trees that satisfy `time_step`'s
/// contract against the same starting tree are the same sequence, so
/// stepping the same input twice yields identical output.
pub proof fn law_step_deterministic(t: GravTree, b1: Seq<Entity>, b2: Seq<Entity>)
    requires
        t.wf(),
        b1 == arrange_spec(t.spec_next_bodies(), t.max_pts as int),
        b2 == arrange_spec(t.spec_next_bodies(), t.max_pts as int),
    ensures
        b1 == b2,
{
}

/// Parallel determinism: `time_step` and `time_step_serial` carry the
/// same exact contract, so a serial and a parallel step over identical
/// input produce identical output.
pub proof fn law_serial_parallel_agree(t: GravTree, parallel: Seq<Entity>, serial: Seq<Entity>)
    requires
        t.wf(),
        parallel == arrange_spec(t.spec_next_bodies(), t.max_pts as int),
        serial == arrange_spec(t.spec_next_bodies(), t.max_pts as int),
    ensures
        parallel == serial,
{
}

/// Traversal completeness: a built tree holds every body it was built
/// from. `GravTree::new` pins its root's bodies to this arrangement.
pub proof fn law_traversal_completeness(s: Seq<Entity>, max_pts: int)
    requires
        max_pts >= 1,
    ensures
        forall|i: int|
            0 <= i < s.len() ==> arrange_spec(s, max_pts).contains(#[trigger] s[i]),
{
    broadcast use vstd::seq_lib::group_to_multiset_ensures;

    crate::node::lemma_arrange_multiset(s, max_pts);
    assert forall|i: int| 0 <= i < s.len() implies arrange_spec(s, max_pts).contains(s[i]) by {
        assert(s.contains(s[i]));
        assert(s.to_multiset().count(s[i]) > 0);
        assert(arrange_spec(s, max_pts).to_multiset().count(s[i]) > 0);
    }
}

/// Two-body symmetry: two bodies of equal mass pull on each other with
/// exactly opposite accelerations.
pub proof fn law_pair_antisymmetry(a: Entity, b: Entity)
    requires
        a.mass == b.mass,
    ensures
        ({
            let f = a.spec_accel_contrib(b);
            let g = b.spec_accel_contrib(a);
            f.0 == -g.0 && f.1 == -g.1 && f.2 == -g.2
        }),
{
    let d2 = a.spec_distance_squared(b);
    assert((a.x - b.x) * (a.x - b.x) == (b.x - a.x) * (b.x - a.x)) by (nonlinear_arith);
    assert((a.y - b.y) * (a.y - b.y) == (b.y - a.y) * (b.y - a.y)) by (nonlinear_arith);
    assert((a.z - b.z) * (a.z - b.z) == (b.z - a.z) * (b.z - a.z)) by (nonlinear_arith);
    assert(b.spec_distance_squared(a) == d2);
    assert((b.x - a.x) * (b.x - a.x) >= 0) by (nonlinear_arith);
    assert((b.y - a.y) * (b.y - a.y) >= 0) by (nonlinear_arith);
    assert((b.z - a.z) * (b.z - a.z) >= 0) by (nonlinear_arith);
    if d2 != 0 {
        crate::utilities::lemma_isqrt_exists(d2);
        let d = crate::utilities::isqrt_of(d2);
        assert(d > 0) by (nonlinear_arith)
            requires
                crate::utilities::is_isqrt(d, d2),
                d2 >= 1,
        ;
        let m = a.mass as int;
        crate::entity::lemma_accel_axis_neg(m, b.x - a.x, d);
        crate::entity::lemma_accel_axis_neg(m, b.y - a.y, d);
        crate::entity::lemma_accel_axis_neg(m, b.z - a.z, d);
        assert(a.x - b.x == -(b.x - a.x));
        assert(a.y - b.y == -(b.y - a.y));
        assert(a.z - b.z == -(b.z - a.z));
    }
}

/// Every leaf of a tree built with capacity `max_pts` holds between 1
/// and `max_pts` bodies inclusive.
pub open spec fn leaf_counts_ok(n: Node, max_pts: int) -> bool
    decreases n,
{
    match n {
        Node::Leaf { points, .. } => 1 <= points@.len() <= max_pts,
        Node::Interior { left, right, .. } => leaf_counts_ok(*left, max_pts) && leaf_counts_ok(
            *right,
            max_pts,
        ),
    }
}

/// Leaf cardinality: a well-formed tree keeps every leaf within the
/// capacity.
pub proof fn law_leaf_cardinality(n: Node, max_pts: int)
    requires
        n.wf(max_pts),
    ensures
        leaf_counts_ok(n, max_pts),
    decreases n,
{
    match n {
        Node::Leaf { .. } => {},
        Node::Interior { left, right, .. } => {
            law_leaf_cardinality(*left, max_pts);
            law_leaf_cardinality(*right, max_pts);
        },
    }
}

} // verus!
