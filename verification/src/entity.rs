//! The atomic body of the simulation: kinematic state plus physical
//! attributes, all as fixed-point raw values.

use vstd::prelude::*;
use vstd::math::abs;
use crate::dimension::Dimension;
use crate::node::Node;
use crate::utilities::{
    all_wf, clamp_i128, div_trunc, div_trunc_i128, is_isqrt, isqrt_of, isqrt_u128, spec_clamp,
};
use crate::{ACCEL_CLAMP, MAX_COORD, MAX_MASS, MAX_RADIUS, MAX_THETA, MAX_TIME_STEP,
    MAX_TOTAL_MASS, SCALE, SimParams};

verus! {

/// One axis of the acceleration that a point mass `m` at signed offset
/// `delta` and distance `d` (all raw units) exerts: the fixed-point
/// rounding of `m * delta / d^3`, computed as
/// `((m * SCALE^2 / d) * |delta|) / d^2` with the sign of `delta`.
pub open spec fn accel_axis(m: int, delta: int, d: int) -> int
    recommends
        0 < d,
{
    let t = (((m * SCALE * SCALE) / d) * abs(delta)) / (d * d);
    if delta >= 0 {
        t
    } else {
        -t
    }
}

/// Componentwise accumulation of an acceleration contribution, each
/// component saturating at the acceleration bound.
pub open spec fn acc_add_clamp(acc: (int, int, int), c: (int, int, int)) -> (int, int, int) {
    (
        spec_clamp(acc.0 + c.0, ACCEL_CLAMP as int),
        spec_clamp(acc.1 + c.1, ACCEL_CLAMP as int),
        spec_clamp(acc.2 + c.2, ACCEL_CLAMP as int),
    )
}

/// An Entity is an object (generalized to be spherical, having only a
/// radius dimension) which has velocity, position, radius, and mass.
/// The gravitational tree contains many entities and it moves them
/// around according to the gravity they exert on each other.
///
/// Every field is a fixed-point raw value: `crate::SCALE` units are 1.0.
#[derive(Clone, Copy, PartialEq, Eq, Structural, Debug)]
pub struct Entity {
    pub vx: i64,
    pub vy: i64,
    pub vz: i64,
    pub x: i64,
    pub y: i64,
    pub z: i64,
    pub radius: i64,
    pub mass: i64,
}

impl Entity {
    /// The ranges the simulation accepts: positions and velocities
    /// within the coordinate bound, mass strictly positive, radius
    /// non-negative.
    pub open spec fn wf(self) -> bool {
        &&& -MAX_COORD <= self.x <= MAX_COORD
        &&& -MAX_COORD <= self.y <= MAX_COORD
        &&& -MAX_COORD <= self.z <= MAX_COORD
        &&& -MAX_COORD <= self.vx <= MAX_COORD
        &&& -MAX_COORD <= self.vy <= MAX_COORD
        &&& -MAX_COORD <= self.vz <= MAX_COORD
        &&& 0 < self.mass <= MAX_MASS
        &&& 0 <= self.radius <= MAX_RADIUS
    }

    /// The position lies within the coordinate bound.
    pub open spec fn pos_bounded(self) -> bool {
        &&& -MAX_COORD <= self.x <= MAX_COORD
        &&& -MAX_COORD <= self.y <= MAX_COORD
        &&& -MAX_COORD <= self.z <= MAX_COORD
    }

    /// The bounds a point mass standing for a whole subtree satisfies:
    /// position in range, mass positive and at most a whole tree's.
    pub open spec fn mass_point_wf(self) -> bool {
        &&& self.pos_bounded()
        &&& 0 < self.mass <= crate::MAX_TOTAL_MASS
    }

    /// The position coordinate on the given axis.
    pub open spec fn coord(self, dim: Dimension) -> i64 {
        match dim {
            Dimension::X => self.x,
            Dimension::Y => self.y,
            Dimension::Z => self.z,
            Dimension::NoDim => self.x,
        }
    }

    /// Returns whether this entity is within the accepted ranges.
    pub fn is_wf(&self) -> (r: bool)
        ensures
            r == self.wf(),
    {
        -MAX_COORD <= self.x && self.x <= MAX_COORD && -MAX_COORD <= self.y && self.y <= MAX_COORD
            && -MAX_COORD <= self.z && self.z <= MAX_COORD && -MAX_COORD <= self.vx && self.vx
            <= MAX_COORD && -MAX_COORD <= self.vy && self.vy <= MAX_COORD && -MAX_COORD <= self.vz
            && self.vz <= MAX_COORD && 0 < self.mass && self.mass <= MAX_MASS && 0 <= self.radius
            && self.radius <= MAX_RADIUS
    }

    /// Returns the position coordinate on the given axis.
    pub fn get_dim(&self, dim: &Dimension) -> (r: i64)
        requires
            dim.is_axis(),
        ensures
            r == self.coord(*dim),
    {
        match dim {
            Dimension::X => self.x,
            Dimension::Y => self.y,
            Dimension::Z => self.z,
            Dimension::NoDim => self.x,
        }
    }

    /// The squared distance between the two positions, in squared raw
    /// units, as a mathematical integer.
    pub open spec fn spec_distance_squared(self, other: Entity) -> int {
        let dx = other.x - self.x;
        let dy = other.y - self.y;
        let dz = other.z - self.z;
        dx * dx + dy * dy + dz * dz
    }

    /// The returns the distance squared between two entities, in
    /// squared raw units.
    pub fn distance_squared(&self, other: &Entity) -> (r: u128)
        requires
            self.pos_bounded(),
            other.pos_bounded(),
        ensures
            r == self.spec_distance_squared(*other),
            r <= 12_000_000_000_000_000_000_000_000u128,
    {
        let dx: i128 = other.x as i128 - self.x as i128;
        let dy: i128 = other.y as i128 - self.y as i128;
        let dz: i128 = other.z as i128 - self.z as i128;
        proof {
            assert((dx * dx + dy * dy + dz * dz)
                <= 12_000_000_000_000_000_000_000_000int) by (nonlinear_arith)
                requires
                    -2_000_000_000_000 <= dx <= 2_000_000_000_000,
                    -2_000_000_000_000 <= dy <= 2_000_000_000_000,
                    -2_000_000_000_000 <= dz <= 2_000_000_000_000;
            assert(dx * dx >= 0 && dy * dy >= 0 && dz * dz >= 0) by (nonlinear_arith);
        }
        (dx * dx + dy * dy + dz * dz) as u128
    }

    /// The signed componentwise difference `other - self` of the two
    /// positions, in raw units.
    pub open spec fn spec_distance_vector(self, other: Entity) -> (i64, i64, i64) {
        (
            (other.x - self.x) as i64,
            (other.y - self.y) as i64,
            (other.z - self.z) as i64,
        )
    }

    /// Returns the distance between two entities as a signed
    /// componentwise difference tuple.
    pub fn distance_vector(&self, other: &Entity) -> (r: (i64, i64, i64))
        requires
            self.pos_bounded(),
            other.pos_bounded(),
        ensures
            r == self.spec_distance_vector(*other),
            r.0 == other.x - self.x,
            r.1 == other.y - self.y,
            r.2 == other.z - self.z,
    {
        (other.x - self.x, other.y - self.y, other.z - self.z)
    }

    /// Returns the distance between the two entities, in raw units,
    /// rounded down to an integer.
    pub fn distance(&self, other: &Entity) -> (r: u128)
        requires
            self.pos_bounded(),
            other.pos_bounded(),
        ensures
            r == isqrt_of(self.spec_distance_squared(*other)),
    {
        isqrt_u128(self.distance_squared(other))
    }

    /// The acceleration the point mass `other` exerts on `self`:
    /// Newtonian gravity with G = 1, `m * (p_other - p_self) / d^3`,
    /// with the fixed-point rounding of `accel_axis`, and zero when the
    /// two positions coincide.
    pub open spec fn spec_accel_contrib(self, other: Entity) -> (int, int, int) {
        let d2 = self.spec_distance_squared(other);
        if d2 == 0 {
            (0, 0, 0)
        } else {
            let d = isqrt_of(d2);
            (
                accel_axis(other.mass as int, other.x - self.x, d),
                accel_axis(other.mass as int, other.y - self.y, d),
                accel_axis(other.mass as int, other.z - self.z, d),
            )
        }
    }

    /// Given two entities, self and other, returns the acceleration
    /// that other is exerting on self. The contribution is zero when
    /// the two positions coincide, so an entity exerts nothing on
    /// itself.
    pub fn get_gravitational_acceleration(&self, other: &Entity) -> (r: (i128, i128, i128))
        requires
            self.pos_bounded(),
            other.mass_point_wf(),
        ensures
            (r.0 as int, r.1 as int, r.2 as int) == self.spec_accel_contrib(*other),
            -(other.mass as int * SCALE as int * SCALE as int) <= r.0 <= other.mass as int
                * SCALE as int * SCALE as int,
            -(other.mass as int * SCALE as int * SCALE as int) <= r.1 <= other.mass as int
                * SCALE as int * SCALE as int,
            -(other.mass as int * SCALE as int * SCALE as int) <= r.2 <= other.mass as int
                * SCALE as int * SCALE as int,
            -ACCEL_CLAMP - ACCEL_CLAMP <= r.0 <= ACCEL_CLAMP + ACCEL_CLAMP,
            -ACCEL_CLAMP - ACCEL_CLAMP <= r.1 <= ACCEL_CLAMP + ACCEL_CLAMP,
            -ACCEL_CLAMP - ACCEL_CLAMP <= r.2 <= ACCEL_CLAMP + ACCEL_CLAMP,
    {
        let d2 = self.distance_squared(other);
        if d2 == 0 {
            return (0, 0, 0);
        }
        let d = isqrt_u128(d2);
        let (dx, dy, dz) = self.distance_vector(other);
        proof {
            let di = d as int;
            assert(0 < di) by (nonlinear_arith)
                requires
                    is_isqrt(di, d2 as int),
                    d2 >= 1,
            ;
            assert(di <= 4_000_000_000_000) by (nonlinear_arith)
                requires
                    is_isqrt(di, d2 as int),
                    d2 <= 12_000_000_000_000_000_000_000_000u128,
            ;
            assert(-di <= dx as int <= di && -di <= dy as int <= di && -di <= dz as int <= di)
                by (nonlinear_arith)
                requires
                    is_isqrt(di, d2 as int),
                    d2 as int == (dx as int) * (dx as int) + (dy as int) * (dy as int) + (
                    dz as int) * (dz as int),
            ;
        }
        (
            axis_accel(other.mass, dx, d),
            axis_accel(other.mass, dy, d),
            axis_accel(other.mass, dz, d),
        )
    }

    /// Whether the node is far enough from this entity, relative to
    /// its own size, to be approximated by its center of mass: the
    /// squared distance to the center of mass, scaled by the squared
    /// opening angle, exceeds the squared largest box side.
    pub open spec fn spec_theta_exceeded(self, n: Node, theta: i64) -> bool {
        let d2 = self.spec_distance_squared(n.spec_as_entity());
        let md = n.spec_max_distance();
        d2 * (theta * theta) > md * md * (SCALE as int * SCALE as int)
    }

    /// Returns whether the node is within the theta range of the
    /// entity.
    fn theta_exceeded(&self, node: &Node, theta: i64) -> (r: bool)
        requires
            self.pos_bounded(),
            node.properties().bounded(),
            0 < theta <= MAX_THETA,
        ensures
            r == self.spec_theta_exceeded(*node, theta),
    {
        let node_as_entity = node.as_entity();
        let dist = self.distance_squared(&node_as_entity);
        let max_dist = node.max_distance();
        let th: u128 = theta as u128;
        proof {
            assert((th as int) * (th as int) <= 4_000_000_000_000int) by (nonlinear_arith)
                requires
                    0 < th <= 2_000_000u128,
            ;
        }
        let th2: u128 = th * th;
        proof {
            assert((dist as int) * (th2 as int)
                <= 48_000_000_000_000_000_000_000_000_000_000_000_000int) by (nonlinear_arith)
                requires
                    0 <= dist <= 12_000_000_000_000_000_000_000_000u128,
                    0 <= th2 <= 4_000_000_000_000u128,
            ;
        }
        let md: u128 = max_dist as u128;
        proof {
            assert((md as int) * (md as int) <= 1_000_000_000_000_000_000_000_000int)
                by (nonlinear_arith)
                requires
                    0 <= md <= 1_000_000_000_000u128,
            ;
        }
        let md2: u128 = md * md;
        let lhs: u128 = dist * th2;
        let s: u128 = SCALE as u128;
        proof {
            assert(s == 1_000_000u128);
        }
        let s2: u128 = s * s;
        proof {
            assert((md2 as int) * (s2 as int) <= 1_000_000_000_000_000_000_000_000_000_000_000_000int)
                by (nonlinear_arith)
                requires
                    0 <= md2 <= 1_000_000_000_000_000_000_000_000u128,
                    s2 == 1_000_000_000_000u128,
            ;
        }
        let rhs: u128 = md2 * s2;
        lhs > rhs
    }
}

/// Accumulates the contributions of the entities in `pts`, in order,
/// each addition saturating at the acceleration bound.
pub open spec fn accel_fold(e: Entity, pts: Seq<Entity>, acc: (int, int, int)) -> (int, int, int)
    decreases pts.len(),
{
    if pts.len() == 0 {
        acc
    } else {
        accel_fold(e, pts.drop_first(), acc_add_clamp(acc, e.spec_accel_contrib(pts[0])))
    }
}

/// The acceleration accumulated over a walk of the tree: direct
/// contributions at a leaf, the single center-of-mass approximation at
/// an interior node that is far enough, and a recursive visit of both
/// children otherwise.
pub open spec fn accel_walk(e: Entity, n: Node, theta: i64, acc: (int, int, int)) -> (
    int,
    int,
    int,
)
    decreases n,
{
    match n {
        Node::Leaf { points, .. } => accel_fold(e, points@, acc),
        Node::Interior { left, right, .. } => {
            if e.spec_theta_exceeded(n, theta) {
                acc_add_clamp(acc, e.spec_accel_contrib(n.spec_as_entity()))
            } else {
                accel_walk(e, *right, theta, accel_walk(e, *left, theta, acc))
            }
        },
    }
}

/// The leaf fold keeps the accumulator within the acceleration bound.
pub proof fn lemma_fold_clamped(e: Entity, pts: Seq<Entity>, acc: (int, int, int))
    requires
        -ACCEL_CLAMP <= acc.0 <= ACCEL_CLAMP,
        -ACCEL_CLAMP <= acc.1 <= ACCEL_CLAMP,
        -ACCEL_CLAMP <= acc.2 <= ACCEL_CLAMP,
    ensures
        ({
            let r = accel_fold(e, pts, acc);
            &&& -ACCEL_CLAMP <= r.0 <= ACCEL_CLAMP
            &&& -ACCEL_CLAMP <= r.1 <= ACCEL_CLAMP
            &&& -ACCEL_CLAMP <= r.2 <= ACCEL_CLAMP
        }),
    decreases pts.len(),
{
    if pts.len() > 0 {
        lemma_fold_clamped(e, pts.drop_first(), acc_add_clamp(acc, e.spec_accel_contrib(pts[0])));
    }
}

/// The tree walk keeps the accumulator within the acceleration bound.
pub proof fn lemma_walk_clamped(e: Entity, n: Node, theta: i64, acc: (int, int, int))
    requires
        -ACCEL_CLAMP <= acc.0 <= ACCEL_CLAMP,
        -ACCEL_CLAMP <= acc.1 <= ACCEL_CLAMP,
        -ACCEL_CLAMP <= acc.2 <= ACCEL_CLAMP,
    ensures
        ({
            let r = accel_walk(e, n, theta, acc);
            &&& -ACCEL_CLAMP <= r.0 <= ACCEL_CLAMP
            &&& -ACCEL_CLAMP <= r.1 <= ACCEL_CLAMP
            &&& -ACCEL_CLAMP <= r.2 <= ACCEL_CLAMP
        }),
    decreases n,
{
    match n {
        Node::Leaf { points, .. } => {
            lemma_fold_clamped(e, points@, acc);
        },
        Node::Interior { left, right, .. } => {
            if !e.spec_theta_exceeded(n, theta) {
                lemma_walk_clamped(e, *left, theta, acc);
                lemma_walk_clamped(e, *right, theta, accel_walk(e, *left, theta, acc));
            }
        },
    }
}

/// The entity after one time step of gravity from the tree `n`: the
/// accumulated acceleration folds into the velocity over one time
/// step, and the updated velocity advances the position, both clamped
/// into the coordinate range. Mass and radius carry over unchanged.
pub open spec fn spec_apply_gravity(e: Entity, n: Node, params: SimParams) -> Entity {
    let a = accel_walk(e, n, params.theta, (0, 0, 0));
    let nvx = spec_clamp(
        e.vx + div_trunc(a.0 * params.time_step, SCALE as int),
        MAX_COORD as int,
    );
    let nvy = spec_clamp(
        e.vy + div_trunc(a.1 * params.time_step, SCALE as int),
        MAX_COORD as int,
    );
    let nvz = spec_clamp(
        e.vz + div_trunc(a.2 * params.time_step, SCALE as int),
        MAX_COORD as int,
    );
    let nx = spec_clamp(e.x + div_trunc(nvx * params.time_step, SCALE as int), MAX_COORD as int);
    let ny = spec_clamp(e.y + div_trunc(nvy * params.time_step, SCALE as int), MAX_COORD as int);
    let nz = spec_clamp(e.z + div_trunc(nvz * params.time_step, SCALE as int), MAX_COORD as int);
    Entity {
        x: nx as i64,
        y: ny as i64,
        z: nz as i64,
        vx: nvx as i64,
        vy: nvy as i64,
        vz: nvz as i64,
        radius: e.radius,
        mass: e.mass,
    }
}

/// Flipping the offset flips the contribution: the axis acceleration
/// is an odd function of the offset.
pub proof fn lemma_accel_axis_neg(m: int, delta: int, d: int)
    requires
        0 < d,
    ensures
        accel_axis(m, -delta, d) == -accel_axis(m, delta, d),
{
    assert(abs(-delta) == abs(delta));
    assert(d * d > 0) by (nonlinear_arith)
        requires
            d > 0,
    ;
    if delta == 0 {
        let q = (m * SCALE * SCALE) / d;
        assert(q * abs(0) == 0) by (nonlinear_arith)
            requires
                abs(0) == 0,
        ;
        vstd::arithmetic::div_mod::lemma_div_of0(d * d);
    }
}

/// One gravity step keeps an entity within the accepted ranges.
pub proof fn lemma_apply_gravity_wf(e: Entity, n: Node, params: SimParams)
    requires
        e.wf(),
    ensures
        spec_apply_gravity(e, n, params).wf(),
{
}

impl Entity {
    /// The walk of `accel_walk`, carried out over the tree.
    fn accel_walk_exec(&self, node: &Node, theta: i64, acc: (i128, i128, i128)) -> (r: (
        i128,
        i128,
        i128,
    ))
        requires
            self.pos_bounded(),
            node.sound(),
            0 < theta <= MAX_THETA,
            -ACCEL_CLAMP <= acc.0 <= ACCEL_CLAMP,
            -ACCEL_CLAMP <= acc.1 <= ACCEL_CLAMP,
            -ACCEL_CLAMP <= acc.2 <= ACCEL_CLAMP,
        ensures
            (r.0 as int, r.1 as int, r.2 as int) == accel_walk(
                *self,
                *node,
                theta,
                (acc.0 as int, acc.1 as int, acc.2 as int),
            ),
            -ACCEL_CLAMP <= r.0 <= ACCEL_CLAMP,
            -ACCEL_CLAMP <= r.1 <= ACCEL_CLAMP,
            -ACCEL_CLAMP <= r.2 <= ACCEL_CLAMP,
        decreases *node,
    {
        proof {
            lemma_walk_clamped(
                *self,
                *node,
                theta,
                (acc.0 as int, acc.1 as int, acc.2 as int),
            );
        }
        match node {
            Node::Leaf { points, .. } => {
                let ghost acc0 = (acc.0 as int, acc.1 as int, acc.2 as int);
                let ghost goal = accel_fold(*self, points@, acc0);
                proof {
                    assert(points@.skip(0) =~= points@);
                }
                let mut cur = acc;
                let mut i: usize = 0;
                while i < points.len()
                    invariant
                        i <= points@.len(),
                        self.pos_bounded(),
                        all_wf(points@),
                        -ACCEL_CLAMP <= cur.0 <= ACCEL_CLAMP,
                        -ACCEL_CLAMP <= cur.1 <= ACCEL_CLAMP,
                        -ACCEL_CLAMP <= cur.2 <= ACCEL_CLAMP,
                        accel_fold(
                            *self,
                            points@.skip(i as int),
                            (cur.0 as int, cur.1 as int, cur.2 as int),
                        ) == goal,
                    decreases points@.len() - i,
                {
                    let p = points[i];
                    proof {
                        assert(points@[i as int].wf());
                        let sk = points@.skip(i as int);
                        assert(sk[0] == points@[i as int]);
                        assert(sk.drop_first() =~= points@.skip(i + 1));
                    }
                    let c = self.get_gravitational_acceleration(&p);
                    let n0 = clamp_i128(cur.0 + c.0, ACCEL_CLAMP);
                    let n1 = clamp_i128(cur.1 + c.1, ACCEL_CLAMP);
                    let n2 = clamp_i128(cur.2 + c.2, ACCEL_CLAMP);
                    cur = (n0, n1, n2);
                    i = i + 1;
                }
                proof {
                    assert(points@.skip(points@.len() as int) =~= Seq::<Entity>::empty());
                }
                cur
            },
            Node::Interior { left, right, .. } => {
                if self.theta_exceeded(node, theta) {
                    let c = self.get_gravitational_acceleration(&node.as_entity());
                    let n0 = clamp_i128(acc.0 + c.0, ACCEL_CLAMP);
                    let n1 = clamp_i128(acc.1 + c.1, ACCEL_CLAMP);
                    let n2 = clamp_i128(acc.2 + c.2, ACCEL_CLAMP);
                    (n0, n1, n2)
                } else {
                    let a1 = self.accel_walk_exec(left, theta, acc);
                    let a2 = self.accel_walk_exec(right, theta, a1);
                    a2
                }
            },
        }
    }

    /// Returns the acceleration of an entity after it has had gravity
    /// from the specified node applied to it. A node far enough away,
    /// as judged by the opening angle, is approximated by its center
    /// of mass; otherwise both children are visited; at a leaf every
    /// body contributes directly.
    pub fn get_entity_acceleration_from(&self, node: &Node, theta: i64) -> (r: (i128, i128, i128))
        requires
            self.pos_bounded(),
            node.sound(),
            0 < theta <= MAX_THETA,
        ensures
            (r.0 as int, r.1 as int, r.2 as int) == accel_walk(*self, *node, theta, (0, 0, 0)),
            -ACCEL_CLAMP <= r.0 <= ACCEL_CLAMP,
            -ACCEL_CLAMP <= r.1 <= ACCEL_CLAMP,
            -ACCEL_CLAMP <= r.2 <= ACCEL_CLAMP,
    {
        self.accel_walk_exec(node, theta, (0, 0, 0))
    }

    /// Returns a new entity after gravity from a node has been applied
    /// to it. Should be read as "apply gravity from node".
    pub fn apply_gravity_from(&self, node: &Node, params: &SimParams) -> (r: Entity)
        requires
            self.wf(),
            node.sound(),
            params.wf(),
        ensures
            r == spec_apply_gravity(*self, *node, *params),
            r.wf(),
    {
        let a = self.get_entity_acceleration_from(node, params.theta);
        let dt = params.time_step;
        proof {
            assert(-ACCEL_CLAMP * MAX_TIME_STEP as int <= a.0 * dt <= ACCEL_CLAMP
                * MAX_TIME_STEP as int) by (nonlinear_arith)
                requires
                    -ACCEL_CLAMP <= a.0 <= ACCEL_CLAMP,
                    0 < dt <= MAX_TIME_STEP,
            ;
            assert(-ACCEL_CLAMP * MAX_TIME_STEP as int <= a.1 * dt <= ACCEL_CLAMP
                * MAX_TIME_STEP as int) by (nonlinear_arith)
                requires
                    -ACCEL_CLAMP <= a.1 <= ACCEL_CLAMP,
                    0 < dt <= MAX_TIME_STEP,
            ;
            assert(-ACCEL_CLAMP * MAX_TIME_STEP as int <= a.2 * dt <= ACCEL_CLAMP
                * MAX_TIME_STEP as int) by (nonlinear_arith)
                requires
                    -ACCEL_CLAMP <= a.2 <= ACCEL_CLAMP,
                    0 < dt <= MAX_TIME_STEP,
            ;
        }
        let dvx = div_trunc_i128(a.0 * dt as i128, SCALE as i128);
        let dvy = div_trunc_i128(a.1 * dt as i128, SCALE as i128);
        let dvz = div_trunc_i128(a.2 * dt as i128, SCALE as i128);
        let nvx = clamp_i128(self.vx as i128 + dvx, MAX_COORD as i128) as i64;
        let nvy = clamp_i128(self.vy as i128 + dvy, MAX_COORD as i128) as i64;
        let nvz = clamp_i128(self.vz as i128 + dvz, MAX_COORD as i128) as i64;
        proof {
            assert(-(MAX_COORD as int) * MAX_TIME_STEP as int <= nvx as i128 * dt as i128 <= (
            MAX_COORD as int) * MAX_TIME_STEP as int) by (nonlinear_arith)
                requires
                    -MAX_COORD <= nvx <= MAX_COORD,
                    0 < dt <= MAX_TIME_STEP,
            ;
            assert(-(MAX_COORD as int) * MAX_TIME_STEP as int <= nvy as i128 * dt as i128 <= (
            MAX_COORD as int) * MAX_TIME_STEP as int) by (nonlinear_arith)
                requires
                    -MAX_COORD <= nvy <= MAX_COORD,
                    0 < dt <= MAX_TIME_STEP,
            ;
            assert(-(MAX_COORD as int) * MAX_TIME_STEP as int <= nvz as i128 * dt as i128 <= (
            MAX_COORD as int) * MAX_TIME_STEP as int) by (nonlinear_arith)
                requires
                    -MAX_COORD <= nvz <= MAX_COORD,
                    0 < dt <= MAX_TIME_STEP,
            ;
        }
        let dpx = div_trunc_i128(nvx as i128 * dt as i128, SCALE as i128);
        let dpy = div_trunc_i128(nvy as i128 * dt as i128, SCALE as i128);
        let dpz = div_trunc_i128(nvz as i128 * dt as i128, SCALE as i128);
        let nx = clamp_i128(self.x as i128 + dpx, MAX_COORD as i128) as i64;
        let ny = clamp_i128(self.y as i128 + dpy, MAX_COORD as i128) as i64;
        let nz = clamp_i128(self.z as i128 + dpz, MAX_COORD as i128) as i64;
        Entity {
            x: nx,
            y: ny,
            z: nz,
            vx: nvx,
            vy: nvy,
            vz: nvz,
            radius: self.radius,
            mass: self.mass,
        }
    }

    /// Convenience function for testing. Generates an entity with
    /// random position, velocity, radius and mass, each drawn from one
    /// unit's worth of raw values.
    pub fn random_entity() -> (r: Entity)
        ensures
            r.wf(),
            0 <= r.x < SCALE,
            0 <= r.y < SCALE,
            0 <= r.z < SCALE,
            0 <= r.vx < SCALE,
            0 <= r.vy < SCALE,
            0 <= r.vz < SCALE,
            0 <= r.radius < SCALE,
            0 < r.mass <= SCALE,
    {
        Entity {
            x: random_unit(),
            y: random_unit(),
            z: random_unit(),
            vx: random_unit(),
            vy: random_unit(),
            vz: random_unit(),
            radius: random_unit(),
            mass: 1 + random_unit(),
        }
    }
}

/// Relies on rand::random::<u32>: an arbitrary 32-bit value; nothing
/// further is assumed of it.
#[verifier::external_body]
fn random_u32() -> u32 {
    rand::random::<u32>()
}

/// A random raw value in `[0, SCALE)`.
fn random_unit() -> (r: i64)
    ensures
        0 <= r < SCALE,
{
    (random_u32() % 1_000_000) as i64
}

/// One axis of a contribution, computed over unsigned magnitudes.
fn axis_accel(m: i64, delta: i64, d: u128) -> (r: i128)
    requires
        0 < m <= MAX_TOTAL_MASS,
        0 < d <= 4_000_000_000_000u128,
        -(d as int) <= delta as int <= d as int,
    ensures
        r == accel_axis(m as int, delta as int, d as int),
        -(m as int * SCALE as int * SCALE as int) <= r <= m as int * SCALE as int * SCALE as int,
{
    proof {
        assert((m as int) * (SCALE as int) * (SCALE as int)
            <= 1_000_000_000_000_000_000_000_000_000_000int) by (nonlinear_arith)
            requires
                0 < m <= MAX_TOTAL_MASS,
        ;
    }
    let ms: u128 = m as u128 * (SCALE as u128) * (SCALE as u128);
    let t1: u128 = ms / d;
    let ad: u128 = if delta >= 0 {
        delta as u128
    } else {
        (-(delta as i128)) as u128
    };
    proof {
        assert(ad as int == abs(delta as int));
        vstd::arithmetic::div_mod::lemma_fundamental_div_mod(ms as int, d as int);
        assert((t1 as int) * (ad as int) <= ms as int) by (nonlinear_arith)
            requires
                0 <= t1 as int,
                0 <= ad as int <= d as int,
                (t1 as int) * (d as int) <= ms as int,
        ;
        assert(0 < (d as int) * (d as int) <= 16_000_000_000_000_000_000_000_000int)
            by (nonlinear_arith)
            requires
                0 < d <= 4_000_000_000_000u128,
        ;
    }
    let t2: u128 = t1 * ad;
    let dd: u128 = d * d;
    let t: u128 = t2 / dd;
    proof {
        vstd::arithmetic::div_mod::lemma_div_nonincreasing(t2 as int, dd as int);
        vstd::arithmetic::div_mod::lemma_div_pos_is_pos(t2 as int, dd as int);
    }
    if delta >= 0 {
        t as i128
    } else {
        -(t as i128)
    }
}

} // verus!
