//! The spatial tree node: either a leaf carrying bodies or an interior
//! node carrying a split axis, a split coordinate and two children,
//! each with the aggregate properties maintained as invariants.

use vstd::prelude::*;
use vstd::math::{max3, min, max};
use vstd::seq_lib::lemma_multiset_commutative;
use crate::dimension::Dimension;
use crate::entity::Entity;
use crate::utilities::{
    all_wf, div_trunc, div_trunc_i128, find_median, lemma_div_trunc_bound, lemma_extents,
    lemma_msort_on, max_coord_on, max_min_xyz, max_radius_of, min_coord_on, msort_on,
    xyz_distances,
};
use crate::{MAX_BODIES, MAX_COORD, MAX_MASS, MAX_RADIUS, MAX_TOTAL_MASS};

verus! {

/// The mass of all entities in the sequence, in raw units.
pub open spec fn sum_mass(s: Seq<Entity>) -> int
    decreases s.len(),
{
    if s.len() == 0 {
        0
    } else {
        sum_mass(s.drop_last()) + s.last().mass
    }
}

/// The mass-weighted coordinate sum on axis `d`, in raw-squared units.
pub open spec fn sum_moment(s: Seq<Entity>, d: Dimension) -> int
    decreases s.len(),
{
    if s.len() == 0 {
        0
    } else {
        sum_moment(s.drop_last(), d) + s.last().coord(d) * s.last().mass
    }
}

/// Mass and moment sums distribute over concatenation.
pub proof fn lemma_sum_concat(a: Seq<Entity>, b: Seq<Entity>, d: Dimension)
    ensures
        sum_mass(a + b) == sum_mass(a) + sum_mass(b),
        sum_moment(a + b, d) == sum_moment(a, d) + sum_moment(b, d),
    decreases b.len(),
{
    if b.len() == 0 {
        assert(a + b =~= a);
    } else {
        assert((a + b).drop_last() =~= a + b.drop_last());
        assert((a + b).last() == b.last());
        lemma_sum_concat(a, b.drop_last(), d);
    }
}

/// Bounds on the sums over well-formed entities.
pub proof fn lemma_sum_bounds(s: Seq<Entity>, d: Dimension)
    requires
        all_wf(s),
    ensures
        s.len() <= sum_mass(s) <= s.len() * MAX_MASS,
        -(MAX_COORD * sum_mass(s)) <= sum_moment(s, d) <= MAX_COORD * sum_mass(s),
    decreases s.len(),
{
    if s.len() == 0 {
    } else {
        let t = s.drop_last();
        assert(all_wf(t)) by {
            assert(forall|i: int| 0 <= i < t.len() ==> t[i] == s[i] && #[trigger] s[i].wf());
        }
        lemma_sum_bounds(t, d);
        assert(s.last().wf());
        let c = s.last().coord(d);
        let m = s.last().mass;
        assert(-(MAX_COORD * m) <= c * m <= MAX_COORD * m) by (nonlinear_arith)
            requires
                -MAX_COORD <= c <= MAX_COORD,
                0 < m,
        ;
        assert((s.len() - 1) * MAX_MASS + MAX_MASS == s.len() * MAX_MASS) by (nonlinear_arith);
        assert(MAX_COORD * (sum_mass(t) + m) == MAX_COORD * sum_mass(t) + MAX_COORD * m)
            by (nonlinear_arith);
    }
}

/// The axis the tree splits on for the body set `s`: the axis of
/// greatest span, preferring Z, then Y, then X on strict majority, and
/// falling through to X when no axis strictly dominates.
pub open spec fn pick_axis_spec(s: Seq<Entity>) -> Dimension {
    let xd = max_coord_on(s, Dimension::X) - min_coord_on(s, Dimension::X);
    let yd = max_coord_on(s, Dimension::Y) - min_coord_on(s, Dimension::Y);
    let zd = max_coord_on(s, Dimension::Z) - min_coord_on(s, Dimension::Z);
    if zd > yd && zd > xd {
        Dimension::Z
    } else if yd > xd && yd > zd {
        Dimension::Y
    } else {
        Dimension::X
    }
}

/// The order in which the bodies of `s` come to rest in the leaves of
/// the tree built with leaf capacity `max_pts`: a leaf keeps its
/// bodies as given, an interior node sorts on the split axis and
/// recurses on the two halves.
pub open spec fn arrange_spec(s: Seq<Entity>, max_pts: int) -> Seq<Entity>
    decreases s.len(),
        when max_pts >= 1
        via arrange_spec_dec
{
    if s.len() <= max_pts {
        s
    } else {
        let d = pick_axis_spec(s);
        let sorted = msort_on(s, d);
        let k = s.len() as int / 2;
        arrange_spec(sorted.take(k), max_pts) + arrange_spec(sorted.skip(k), max_pts)
    }
}

#[via_fn]
proof fn arrange_spec_dec(s: Seq<Entity>, max_pts: int) {
    if s.len() > max_pts {
        lemma_msort_on(s, pick_axis_spec(s));
    }
}

/// The arrangement keeps every body: its length is its input's.
pub proof fn lemma_arrange_len(s: Seq<Entity>, max_pts: int)
    requires
        max_pts >= 1,
    ensures
        arrange_spec(s, max_pts).len() == s.len(),
    decreases s.len(),
{
    if s.len() > max_pts {
        let d = pick_axis_spec(s);
        lemma_msort_on(s, d);
        let sorted = msort_on(s, d);
        let k = s.len() as int / 2;
        lemma_arrange_len(sorted.take(k), max_pts);
        lemma_arrange_len(sorted.skip(k), max_pts);
    }
}

/// The arrangement is a permutation of its input.
pub proof fn lemma_arrange_multiset(s: Seq<Entity>, max_pts: int)
    requires
        max_pts >= 1,
    ensures
        arrange_spec(s, max_pts).to_multiset() == s.to_multiset(),
    decreases s.len(),
{
    if s.len() > max_pts {
        let d = pick_axis_spec(s);
        lemma_msort_on(s, d);
        let sorted = msort_on(s, d);
        let k = s.len() as int / 2;
        lemma_arrange_multiset(sorted.take(k), max_pts);
        lemma_arrange_multiset(sorted.skip(k), max_pts);
        lemma_multiset_commutative(
            arrange_spec(sorted.take(k), max_pts),
            arrange_spec(sorted.skip(k), max_pts),
        );
        assert(sorted.take(k) + sorted.skip(k) =~= sorted);
        lemma_multiset_commutative(sorted.take(k), sorted.skip(k));
    }
}

/// The aggregate properties carried by every node: center of mass,
/// total mass, greatest radius and the axis-aligned bounding box.
#[derive(Clone, Copy, PartialEq, Eq, Structural, Debug)]
pub struct Properties {
    pub com_x: i64,
    pub com_y: i64,
    pub com_z: i64,
    pub total_mass: i64,
    pub r_max: i64,
    pub x_min: i64,
    pub x_max: i64,
    pub y_min: i64,
    pub y_max: i64,
    pub z_min: i64,
    pub z_max: i64,
}

impl Properties {
    /// The center-of-mass coordinate on the given axis.
    pub open spec fn com(self, d: Dimension) -> i64 {
        match d {
            Dimension::X => self.com_x,
            Dimension::Y => self.com_y,
            Dimension::Z => self.com_z,
            Dimension::NoDim => self.com_x,
        }
    }

    /// All fields within the accepted ranges.
    pub open spec fn bounded(self) -> bool {
        &&& -MAX_COORD <= self.com_x <= MAX_COORD
        &&& -MAX_COORD <= self.com_y <= MAX_COORD
        &&& -MAX_COORD <= self.com_z <= MAX_COORD
        &&& 0 < self.total_mass <= MAX_TOTAL_MASS
        &&& 0 <= self.r_max <= MAX_RADIUS
        &&& -MAX_COORD <= self.x_min <= self.x_max <= MAX_COORD
        &&& -MAX_COORD <= self.y_min <= self.y_max <= MAX_COORD
        &&& -MAX_COORD <= self.z_min <= self.z_max <= MAX_COORD
    }

    /// The exact aggregates of a leaf holding the entities `s`.
    pub open spec fn for_leaf(self, s: Seq<Entity>) -> bool {
        &&& self.total_mass == sum_mass(s)
        &&& self.com_x == div_trunc(sum_moment(s, Dimension::X), sum_mass(s))
        &&& self.com_y == div_trunc(sum_moment(s, Dimension::Y), sum_mass(s))
        &&& self.com_z == div_trunc(sum_moment(s, Dimension::Z), sum_mass(s))
        &&& self.r_max == max_radius_of(s)
        &&& self.x_max == max_coord_on(s, Dimension::X)
        &&& self.x_min == min_coord_on(s, Dimension::X)
        &&& self.y_max == max_coord_on(s, Dimension::Y)
        &&& self.y_min == min_coord_on(s, Dimension::Y)
        &&& self.z_max == max_coord_on(s, Dimension::Z)
        &&& self.z_min == min_coord_on(s, Dimension::Z)
    }

    /// The exact aggregates of an interior node over its two children:
    /// summed mass, mass-weighted combination of the centers, the
    /// componentwise union of the boxes and the greater radius.
    pub open spec fn for_interior(self, lp: Properties, rp: Properties) -> bool {
        &&& self.total_mass == lp.total_mass + rp.total_mass
        &&& self.com_x == div_trunc(
            lp.total_mass * lp.com_x + rp.total_mass * rp.com_x,
            lp.total_mass + rp.total_mass,
        )
        &&& self.com_y == div_trunc(
            lp.total_mass * lp.com_y + rp.total_mass * rp.com_y,
            lp.total_mass + rp.total_mass,
        )
        &&& self.com_z == div_trunc(
            lp.total_mass * lp.com_z + rp.total_mass * rp.com_z,
            lp.total_mass + rp.total_mass,
        )
        &&& self.r_max == max(lp.r_max as int, rp.r_max as int)
        &&& self.x_min == min(lp.x_min as int, rp.x_min as int)
        &&& self.x_max == max(lp.x_max as int, rp.x_max as int)
        &&& self.y_min == min(lp.y_min as int, rp.y_min as int)
        &&& self.y_max == max(lp.y_max as int, rp.y_max as int)
        &&& self.z_min == min(lp.z_min as int, rp.z_min as int)
        &&& self.z_max == max(lp.z_max as int, rp.z_max as int)
    }
}

/// A node of the spatial tree. A leaf holds the bodies directly; an
/// interior node holds a split axis, the split coordinate and exactly
/// two children.
pub enum Node {
    Leaf { properties: Properties, points: Vec<Entity> },
    Interior {
        split_dimension: Dimension,
        split_value: i64,
        left: Box<Node>,
        right: Box<Node>,
        properties: Properties,
    },
}

impl Node {
    /// The aggregate properties of this node.
    pub open spec fn properties(self) -> Properties {
        match self {
            Node::Leaf { properties, .. } => properties,
            Node::Interior { properties, .. } => properties,
        }
    }

    /// Every body under this node, in tree order.
    pub open spec fn bodies(self) -> Seq<Entity>
        decreases self,
    {
        match self {
            Node::Leaf { points, .. } => points@,
            Node::Interior { left, right, .. } => left.bodies() + right.bodies(),
        }
    }

    /// The structural invariant of a tree built with leaf capacity
    /// `max_pts`: leaves hold between 1 and `max_pts` well-formed
    /// bodies, an interior node splits its bodies around the split
    /// coordinate on its axis, and every node's aggregates are exactly
    /// the stated functions of what is below it.
    pub open spec fn wf(self, max_pts: int) -> bool
        decreases self,
    {
        match self {
            Node::Leaf { properties, points } => {
                &&& 1 <= points@.len() <= max_pts
                &&& points@.len() <= MAX_BODIES
                &&& all_wf(points@)
                &&& properties.for_leaf(points@)
                &&& properties.bounded()
            },
            Node::Interior { split_dimension, split_value, left, right, properties } => {
                &&& split_dimension.is_axis()
                &&& left.wf(max_pts)
                &&& right.wf(max_pts)
                &&& left.bodies().len() + right.bodies().len() <= MAX_BODIES
                &&& forall|i: int|
                    0 <= i < left.bodies().len() ==> #[trigger] left.bodies()[i].coord(
                        split_dimension,
                    ) <= split_value
                &&& forall|i: int|
                    0 <= i < right.bodies().len() ==> #[trigger] right.bodies()[i].coord(
                        split_dimension,
                    ) >= split_value
                &&& properties.for_interior(left.properties(), right.properties())
                &&& properties.bounded()
            },
        }
    }

    /// What force evaluation needs of a tree: every node's aggregates
    /// within range and every leaf body well-formed. Weaker than `wf`,
    /// which also fixes what the aggregates are.
    pub open spec fn sound(self) -> bool
        decreases self,
    {
        match self {
            Node::Leaf { properties, points } => {
                &&& properties.bounded()
                &&& all_wf(points@)
            },
            Node::Interior { left, right, properties, .. } => {
                &&& properties.bounded()
                &&& left.sound()
                &&& right.sound()
            },
        }
    }

    /// A well-formed tree is sound.
    pub proof fn lemma_wf_sound(self, max_pts: int)
        requires
            self.wf(max_pts),
        ensures
            self.sound(),
        decreases self,
    {
        match self {
            Node::Leaf { .. } => {},
            Node::Interior { left, right, .. } => {
                left.lemma_wf_sound(max_pts);
                right.lemma_wf_sound(max_pts);
            },
        }
    }

    /// A well-formed node is non-empty, carries only well-formed
    /// bodies, and its stored total mass is exactly the mass sum of
    /// everything below it.
    pub proof fn lemma_wf_mass(self, max_pts: int)
        requires
            self.wf(max_pts),
        ensures
            self.properties().total_mass == sum_mass(self.bodies()),
            1 <= self.bodies().len() <= MAX_BODIES,
            all_wf(self.bodies()),
        decreases self,
    {
        match self {
            Node::Leaf { properties, points } => {},
            Node::Interior { split_dimension, split_value, left, right, properties } => {
                left.lemma_wf_mass(max_pts);
                right.lemma_wf_mass(max_pts);
                lemma_sum_concat(left.bodies(), right.bodies(), Dimension::X);
                let lb = left.bodies();
                let rb = right.bodies();
                assert(all_wf(lb + rb)) by {
                    assert(forall|i: int|
                        0 <= i < lb.len() ==> (lb + rb)[i] == lb[i] && #[trigger] lb[i].wf());
                    assert(forall|i: int|
                        lb.len() <= i < lb.len() + rb.len() ==> (lb + rb)[i] == rb[i - lb.len()]
                            && #[trigger] rb[i - lb.len()].wf());
                }
            },
        }
    }

    /// Every body under a well-formed node lies inside that node's
    /// bounding box, and its radius is at most the node's `r_max`.
    pub proof fn lemma_wf_box(self, max_pts: int)
        requires
            self.wf(max_pts),
        ensures
            forall|i: int|
                0 <= i < self.bodies().len() ==> {
                    let e = #[trigger] self.bodies()[i];
                    &&& self.properties().x_min <= e.x <= self.properties().x_max
                    &&& self.properties().y_min <= e.y <= self.properties().y_max
                    &&& self.properties().z_min <= e.z <= self.properties().z_max
                    &&& e.radius <= self.properties().r_max
                },
        decreases self,
    {
        match self {
            Node::Leaf { properties, points } => {
                lemma_extents(points@, Dimension::X);
                lemma_extents(points@, Dimension::Y);
                lemma_extents(points@, Dimension::Z);
                assert forall|i: int| 0 <= i < self.bodies().len() implies {
                    let e = #[trigger] self.bodies()[i];
                    &&& self.properties().x_min <= e.x <= self.properties().x_max
                    &&& self.properties().y_min <= e.y <= self.properties().y_max
                    &&& self.properties().z_min <= e.z <= self.properties().z_max
                    &&& e.radius <= self.properties().r_max
                } by {
                    assert(self.bodies()[i] == points@[i]);
                    assert(points@[i].coord(Dimension::X) == points@[i].x);
                    assert(points@[i].coord(Dimension::Y) == points@[i].y);
                    assert(points@[i].coord(Dimension::Z) == points@[i].z);
                }
            },
            Node::Interior { split_dimension, split_value, left, right, properties } => {
                left.lemma_wf_box(max_pts);
                right.lemma_wf_box(max_pts);
                let lb = left.bodies();
                let rb = right.bodies();
                assert(forall|i: int|
                    0 <= i < lb.len() ==> #[trigger] self.bodies()[i] == lb[i]);
                assert(forall|i: int|
                    lb.len() <= i < lb.len() + rb.len() ==> #[trigger] self.bodies()[i] == rb[i
                        - lb.len()]);
            },
        }
    }

    /// The entity standing for this node in far-field evaluation: the
    /// center of mass carrying the total mass, at rest, with no radius.
    pub open spec fn spec_as_entity(self) -> Entity {
        Entity {
            x: self.properties().com_x,
            y: self.properties().com_y,
            z: self.properties().com_z,
            vx: 0,
            vy: 0,
            vz: 0,
            mass: self.properties().total_mass,
            radius: 0,
        }
    }

    /// Converts a node into an entity with the position and mass
    /// derived from the center of mass and total mass of the entities
    /// it contains.
    pub fn as_entity(&self) -> (r: Entity)
        ensures
            r == self.spec_as_entity(),
    {
        let p = match self {
            Node::Leaf { properties, .. } => properties,
            Node::Interior { properties, .. } => properties,
        };
        Entity {
            x: p.com_x,
            y: p.com_y,
            z: p.com_z,
            vx: 0,
            vy: 0,
            vz: 0,
            mass: p.total_mass,
            radius: 0,
        }
    }

    /// The largest side of this node's bounding box, in raw units.
    pub open spec fn spec_max_distance(self) -> int {
        max3(
            self.properties().x_max - self.properties().x_min,
            self.properties().y_max - self.properties().y_min,
            self.properties().z_max - self.properties().z_min,
        )
    }

    /// Returns the largest side of this node's bounding box.
    pub fn max_distance(&self) -> (r: i64)
        requires
            self.properties().bounded(),
        ensures
            r == self.spec_max_distance(),
            0 <= r <= 2 * MAX_COORD,
    {
        let p = match self {
            Node::Leaf { properties, .. } => properties,
            Node::Interior { properties, .. } => properties,
        };
        let dx = p.x_max - p.x_min;
        let dy = p.y_max - p.y_min;
        let dz = p.z_max - p.z_min;
        let mut m = dx;
        if dy > m {
            m = dy;
        }
        if dz > m {
            m = dz;
        }
        m
    }

    /// Returns the aggregate properties of this node.
    pub fn props(&self) -> (r: Properties)
        ensures
            r == self.properties(),
    {
        match self {
            Node::Leaf { properties, .. } => *properties,
            Node::Interior { properties, .. } => *properties,
        }
    }

    /// Takes in a vector of entities and creates a recursive spatial
    /// tree structure: a leaf when at most `max_pts` entities remain,
    /// otherwise a median split on the axis of greatest span, with the
    /// aggregates filled in bottom-up.
    pub fn new_root_node(pts: Vec<Entity>, max_pts: usize) -> (r: Node)
        requires
            1 <= pts@.len() <= MAX_BODIES,
            all_wf(pts@),
            max_pts >= 1,
        ensures
            r.wf(max_pts as int),
            r.bodies() == arrange_spec(pts@, max_pts as int),
            r.bodies().len() == pts@.len(),
            r.bodies().to_multiset() == pts@.to_multiset(),
        decreases pts@.len(),
    {
        let n = pts.len();
        if n <= max_pts {
            let (x_max, x_min, y_max, y_min, z_max, z_min) = max_min_xyz(&pts);
            let first = pts[0];
            proof {
                assert(pts@[0].wf());
                assert(
                    -(MAX_COORD as int * MAX_MASS as int) <= first.x as int * first.mass as int
                        <= MAX_COORD as int * MAX_MASS as int) by (nonlinear_arith)
                    requires
                        -MAX_COORD <= first.x <= MAX_COORD,
                        0 < first.mass <= MAX_MASS,
                ;
                assert(
                    -(MAX_COORD as int * MAX_MASS as int) <= first.y as int * first.mass as int
                        <= MAX_COORD as int * MAX_MASS as int) by (nonlinear_arith)
                    requires
                        -MAX_COORD <= first.y <= MAX_COORD,
                        0 < first.mass <= MAX_MASS,
                ;
                assert(
                    -(MAX_COORD as int * MAX_MASS as int) <= first.z as int * first.mass as int
                        <= MAX_COORD as int * MAX_MASS as int) by (nonlinear_arith)
                    requires
                        -MAX_COORD <= first.z <= MAX_COORD,
                        0 < first.mass <= MAX_MASS,
                ;
                let e = Seq::<Entity>::empty();
                assert(sum_mass(e) == 0);
                assert(sum_moment(e, Dimension::X) == 0);
                assert(sum_moment(e, Dimension::Y) == 0);
                assert(sum_moment(e, Dimension::Z) == 0);
                assert(pts@.take(1).drop_last() =~= e);
                assert(pts@.take(1).last() == pts@[0]);
                assert(sum_mass(pts@.take(1)) == pts@[0].mass);
                assert(sum_moment(pts@.take(1), Dimension::X) == pts@[0].x * pts@[0].mass);
                assert(sum_moment(pts@.take(1), Dimension::Y) == pts@[0].y * pts@[0].mass);
                assert(sum_moment(pts@.take(1), Dimension::Z) == pts@[0].z * pts@[0].mass);
            }
            let mut tm: i64 = first.mass;
            let mut mx: i128 = first.x as i128 * first.mass as i128;
            let mut my: i128 = first.y as i128 * first.mass as i128;
            let mut mz: i128 = first.z as i128 * first.mass as i128;
            let mut rmax: i64 = first.radius;
            let mut i: usize = 1;
            while i < n
                invariant
                    1 <= i <= n,
                    n == pts@.len() <= MAX_BODIES,
                    all_wf(pts@),
                    tm == sum_mass(pts@.take(i as int)),
                    mx == sum_moment(pts@.take(i as int), Dimension::X),
                    my == sum_moment(pts@.take(i as int), Dimension::Y),
                    mz == sum_moment(pts@.take(i as int), Dimension::Z),
                    rmax == max_radius_of(pts@.take(i as int)),
                decreases n - i,
            {
                let p = pts[i];
                proof {
                    let tk = pts@.take(i as int);
                    assert(all_wf(tk)) by {
                        assert(forall|j: int|
                            0 <= j < tk.len() ==> tk[j] == pts@[j] && #[trigger] pts@[j].wf());
                    }
                    lemma_sum_bounds(tk, Dimension::X);
                    lemma_sum_bounds(tk, Dimension::Y);
                    lemma_sum_bounds(tk, Dimension::Z);
                    assert(pts@[i as int].wf());
                    assert(
                        -(MAX_COORD as int * MAX_MASS as int) <= p.x as int * p.mass as int
                            <= MAX_COORD as int * MAX_MASS as int) by (nonlinear_arith)
                        requires
                            -MAX_COORD <= p.x <= MAX_COORD,
                            0 < p.mass <= MAX_MASS,
                    ;
                    assert(
                        -(MAX_COORD as int * MAX_MASS as int) <= p.y as int * p.mass as int
                            <= MAX_COORD as int * MAX_MASS as int) by (nonlinear_arith)
                        requires
                            -MAX_COORD <= p.y <= MAX_COORD,
                            0 < p.mass <= MAX_MASS,
                    ;
                    assert(
                        -(MAX_COORD as int * MAX_MASS as int) <= p.z as int * p.mass as int
                            <= MAX_COORD as int * MAX_MASS as int) by (nonlinear_arith)
                        requires
                            -MAX_COORD <= p.z <= MAX_COORD,
                            0 < p.mass <= MAX_MASS,
                    ;
                    let t1 = pts@.take(i + 1);
                    assert(t1.drop_last() =~= tk);
                    assert(t1.last() == pts@[i as int]);
                }
                tm = tm + p.mass;
                mx = mx + p.x as i128 * p.mass as i128;
                my = my + p.y as i128 * p.mass as i128;
                mz = mz + p.z as i128 * p.mass as i128;
                if p.radius > rmax {
                    rmax = p.radius;
                }
                i = i + 1;
            }
            proof {
                assert(pts@.take(n as int) =~= pts@);
                lemma_sum_bounds(pts@, Dimension::X);
                lemma_sum_bounds(pts@, Dimension::Y);
                lemma_sum_bounds(pts@, Dimension::Z);
                lemma_div_trunc_bound(mx as int, tm as int, MAX_COORD as int);
                lemma_div_trunc_bound(my as int, tm as int, MAX_COORD as int);
                lemma_div_trunc_bound(mz as int, tm as int, MAX_COORD as int);
                lemma_extents(pts@, Dimension::X);
                lemma_extents(pts@, Dimension::Y);
                lemma_extents(pts@, Dimension::Z);
            }
            let com_x = div_trunc_i128(mx, tm as i128) as i64;
            let com_y = div_trunc_i128(my, tm as i128) as i64;
            let com_z = div_trunc_i128(mz, tm as i128) as i64;
            let properties = Properties {
                com_x,
                com_y,
                com_z,
                total_mass: tm,
                r_max: rmax,
                x_min,
                x_max,
                y_min,
                y_max,
                z_min,
                z_max,
            };
            let r = Node::Leaf { properties, points: pts };
            proof {
                assert(r.bodies() == pts@);
                assert(r.wf(max_pts as int));
            }
            r
        } else {
            let ghost orig = pts@;
            let (xd, yd, zd) = xyz_distances(&pts);
            let dim = if zd > yd && zd > xd {
                Dimension::Z
            } else if yd > xd && yd > zd {
                Dimension::Y
            } else {
                Dimension::X
            };
            proof {
                assert(dim == pick_axis_spec(orig));
            }
            let (split_value, lower, upper) = find_median(dim, pts);
            let ghost lows = lower@;
            let ghost ups = upper@;
            let left = Node::new_root_node(lower, max_pts);
            let right = Node::new_root_node(upper, max_pts);
            proof {
                left.lemma_wf_mass(max_pts as int);
                right.lemma_wf_mass(max_pts as int);
                lemma_sum_bounds(left.bodies(), Dimension::X);
                lemma_sum_bounds(right.bodies(), Dimension::X);
            }
            let lp = left.props();
            let rp = right.props();
            let lm = lp.total_mass;
            let rm = rp.total_mass;
            let tm = lm + rm;
            proof {
                assert(0 < tm <= MAX_TOTAL_MASS);
                assert(
                    -(MAX_COORD as int * lm as int) <= lm as int * lp.com_x as int <= MAX_COORD
                        as int * lm as int) by (nonlinear_arith)
                    requires
                        0 < lm,
                        -MAX_COORD <= lp.com_x <= MAX_COORD,
                ;
                assert(
                    -(MAX_COORD as int * lm as int) <= lm as int * lp.com_y as int <= MAX_COORD
                        as int * lm as int) by (nonlinear_arith)
                    requires
                        0 < lm,
                        -MAX_COORD <= lp.com_y <= MAX_COORD,
                ;
                assert(
                    -(MAX_COORD as int * lm as int) <= lm as int * lp.com_z as int <= MAX_COORD
                        as int * lm as int) by (nonlinear_arith)
                    requires
                        0 < lm,
                        -MAX_COORD <= lp.com_z <= MAX_COORD,
                ;
                assert(
                    -(MAX_COORD as int * rm as int) <= rm as int * rp.com_x as int <= MAX_COORD
                        as int * rm as int) by (nonlinear_arith)
                    requires
                        0 < rm,
                        -MAX_COORD <= rp.com_x <= MAX_COORD,
                ;
                assert(
                    -(MAX_COORD as int * rm as int) <= rm as int * rp.com_y as int <= MAX_COORD
                        as int * rm as int) by (nonlinear_arith)
                    requires
                        0 < rm,
                        -MAX_COORD <= rp.com_y <= MAX_COORD,
                ;
                assert(
                    -(MAX_COORD as int * rm as int) <= rm as int * rp.com_z as int <= MAX_COORD
                        as int * rm as int) by (nonlinear_arith)
                    requires
                        0 < rm,
                        -MAX_COORD <= rp.com_z <= MAX_COORD,
                ;
            }
            let num_x = lm as i128 * lp.com_x as i128 + rm as i128 * rp.com_x as i128;
            let num_y = lm as i128 * lp.com_y as i128 + rm as i128 * rp.com_y as i128;
            let num_z = lm as i128 * lp.com_z as i128 + rm as i128 * rp.com_z as i128;
            proof {
                lemma_div_trunc_bound(num_x as int, tm as int, MAX_COORD as int);
                lemma_div_trunc_bound(num_y as int, tm as int, MAX_COORD as int);
                lemma_div_trunc_bound(num_z as int, tm as int, MAX_COORD as int);
            }
            let com_x = div_trunc_i128(num_x, tm as i128) as i64;
            let com_y = div_trunc_i128(num_y, tm as i128) as i64;
            let com_z = div_trunc_i128(num_z, tm as i128) as i64;
            let properties = Properties {
                com_x,
                com_y,
                com_z,
                total_mass: tm,
                r_max: if lp.r_max >= rp.r_max {
                    lp.r_max
                } else {
                    rp.r_max
                },
                x_min: if lp.x_min <= rp.x_min {
                    lp.x_min
                } else {
                    rp.x_min
                },
                x_max: if lp.x_max >= rp.x_max {
                    lp.x_max
                } else {
                    rp.x_max
                },
                y_min: if lp.y_min <= rp.y_min {
                    lp.y_min
                } else {
                    rp.y_min
                },
                y_max: if lp.y_max >= rp.y_max {
                    lp.y_max
                } else {
                    rp.y_max
                },
                z_min: if lp.z_min <= rp.z_min {
                    lp.z_min
                } else {
                    rp.z_min
                },
                z_max: if lp.z_max >= rp.z_max {
                    lp.z_max
                } else {
                    rp.z_max
                },
            };
            let r = Node::Interior {
                split_dimension: dim,
                split_value,
                left: Box::new(left),
                right: Box::new(right),
                properties,
            };
            proof {
                broadcast use vstd::seq_lib::group_to_multiset_ensures;

                let lb = left.bodies();
                let rb = right.bodies();
                assert(r.bodies() == lb + rb);
                // every body on the lower side is at or below the split
                assert forall|i: int| 0 <= i < lb.len() implies #[trigger] lb[i].coord(dim)
                    <= split_value by {
                    assert(lb.contains(lb[i]));
                    assert(lows.to_multiset().count(lb[i]) > 0);
                    assert(lows.contains(lb[i]));
                    let j = choose|j: int| 0 <= j < lows.len() && lows[j] == lb[i];
                    assert(lows[j].coord(dim) <= split_value);
                }
                // every body on the upper side is at or above the split
                assert forall|i: int| 0 <= i < rb.len() implies #[trigger] rb[i].coord(dim)
                    >= split_value by {
                    assert(rb.contains(rb[i]));
                    assert(ups.to_multiset().count(rb[i]) > 0);
                    assert(ups.contains(rb[i]));
                    let j = choose|j: int| 0 <= j < ups.len() && ups[j] == rb[i];
                    assert(ups[j].coord(dim) >= split_value);
                }
                assert(r.wf(max_pts as int));
                // the bodies are exactly the pinned arrangement
                assert(r.bodies() == arrange_spec(orig, max_pts as int));
                // and a permutation of the input
                lemma_multiset_commutative(lb, rb);
                lemma_multiset_commutative(lows, ups);
                assert(r.bodies().to_multiset() == orig.to_multiset());
            }
            r
        }
    }

    /// Traverses the tree and returns every entity below this node, in
    /// tree order.
    pub fn traverse_tree_helper(&self) -> (r: Vec<Entity>)
        ensures
            r@ == self.bodies(),
        decreases self,
    {
        match self {
            Node::Leaf { points, .. } => {
                let mut out: Vec<Entity> = Vec::new();
                let mut i: usize = 0;
                while i < points.len()
                    invariant
                        i <= points@.len(),
                        out@ == points@.take(i as int),
                    decreases points@.len() - i,
                {
                    out.push(points[i]);
                    proof {
                        assert(out@ =~= points@.take(i + 1));
                    }
                    i = i + 1;
                }
                proof {
                    assert(points@.take(points@.len() as int) =~= points@);
                }
                out
            },
            Node::Interior { left, right, .. } => {
                let mut out = left.traverse_tree_helper();
                let mut rs = right.traverse_tree_helper();
                out.append(&mut rs);
                out
            },
        }
    }
}

} // verus!
