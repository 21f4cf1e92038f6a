//! The gravitational tree: a spatial index over a body set together
//! with the simulation parameters, and the step that advances it.

use vstd::prelude::*;
use rayon::iter::{IntoParallelRefIterator, ParallelIterator};
use crate::entity::{lemma_apply_gravity_wf, spec_apply_gravity, Entity};
use crate::node::Node;
use crate::utilities::all_wf;
use crate::{MAX_BODIES, MAX_THETA, MAX_TIME_STEP, SimParams};

verus! {

/// The main struct. Contains a root node, the total number of
/// entities, and the simulation parameters: the opening-angle
/// threshold, the leaf capacity and the time step.
pub struct GravTree {
    pub root: Node,
    pub number_of_entities: usize,
    pub theta: i64,
    pub max_pts: usize,
    pub time_step: i64,
}

impl GravTree {
    /// The simulation parameters this tree carries.
    pub open spec fn params(self) -> SimParams {
        SimParams { theta: self.theta, max_pts: self.max_pts, time_step: self.time_step }
    }

    /// A valid tree: parameters in range, a well-formed root, and the
    /// stored count equal to the number of bodies under the root.
    pub open spec fn wf(self) -> bool {
        &&& self.params().wf()
        &&& self.root.wf(self.max_pts as int)
        &&& self.number_of_entities == self.root.bodies().len()
    }

    /// Builds a tree over the given entities with the given
    /// parameters.
    pub fn new(pts: Vec<Entity>, theta: i64, max_pts: usize, time_step: i64) -> (r: GravTree)
        requires
            1 <= pts@.len() <= MAX_BODIES,
            all_wf(pts@),
            0 < theta <= MAX_THETA,
            max_pts >= 1,
            0 < time_step <= MAX_TIME_STEP,
        ensures
            r.wf(),
            r.root.bodies() == crate::node::arrange_spec(pts@, max_pts as int),
            r.root.bodies().to_multiset() == pts@.to_multiset(),
            r.number_of_entities == pts@.len(),
            r.theta == theta,
            r.max_pts == max_pts,
            r.time_step == time_step,
    {
        let size_of_vec = pts.len();
        let root = Node::new_root_node(pts, max_pts);
        GravTree { root, number_of_entities: size_of_vec, theta, max_pts, time_step }
    }

    /// Traverses the tree and returns a vector of all entities in the
    /// tree, in tree order.
    pub fn as_vec(&self) -> (r: Vec<Entity>)
        ensures
            r@ == self.root.bodies(),
    {
        self.root.traverse_tree_helper()
    }

    /// Gets the total number of entities contained by this tree.
    pub fn get_number_of_entities(&self) -> (r: usize)
        ensures
            r == self.number_of_entities,
    {
        self.number_of_entities
    }

    /// The bodies of the next generation: each body of this tree after
    /// one step of gravity from the whole tree, in tree order.
    pub open spec fn spec_next_bodies(self) -> Seq<Entity> {
        self.root.bodies().map_values(|e: Entity| spec_apply_gravity(e, self.root, self.params()))
    }

    /// Advances the simulation by one tick: collects the bodies,
    /// applies gravity to each of them in parallel against the same
    /// immutable tree, and builds a fresh tree from the result with
    /// the same parameters.
    pub fn time_step(&self) -> (r: GravTree)
        requires
            self.wf(),
        ensures
            r.wf(),
            r.number_of_entities == self.number_of_entities,
            r.root.bodies() == crate::node::arrange_spec(
                self.spec_next_bodies(),
                self.max_pts as int,
            ),
            r.root.bodies().to_multiset() == self.spec_next_bodies().to_multiset(),
            r.theta == self.theta,
            r.max_pts == self.max_pts,
            r.time_step == self.time_step,
    {
        let post_gravity_entity_vec = self.next_bodies_parallel();
        proof {
            self.lemma_next_bodies_wf();
        }
        GravTree::new(post_gravity_entity_vec, self.theta, self.max_pts, self.time_step)
    }

    /// Advances the simulation by one tick exactly as `time_step`
    /// does, but applies gravity to the bodies one after another on
    /// the calling thread.
    pub fn time_step_serial(&self) -> (r: GravTree)
        requires
            self.wf(),
        ensures
            r.wf(),
            r.number_of_entities == self.number_of_entities,
            r.root.bodies() == crate::node::arrange_spec(
                self.spec_next_bodies(),
                self.max_pts as int,
            ),
            r.root.bodies().to_multiset() == self.spec_next_bodies().to_multiset(),
            r.theta == self.theta,
            r.max_pts == self.max_pts,
            r.time_step == self.time_step,
    {
        let post_gravity_entity_vec = self.next_bodies_serial();
        proof {
            self.lemma_next_bodies_wf();
        }
        GravTree::new(post_gravity_entity_vec, self.theta, self.max_pts, self.time_step)
    }

    /// Applies one step of gravity to every body, in parallel.
    fn next_bodies_parallel(&self) -> (r: Vec<Entity>)
        requires
            self.wf(),
        ensures
            r@ == self.spec_next_bodies(),
            all_wf(r@),
            r@.len() == self.number_of_entities,
    {
        proof {
            self.lemma_next_bodies_wf();
        }
        let bodies = self.as_vec();
        let params = SimParams {
            theta: self.theta,
            max_pts: self.max_pts,
            time_step: self.time_step,
        };
        proof {
            self.root.lemma_wf_mass(self.max_pts as int);
            self.root.lemma_wf_sound(self.max_pts as int);
        }
        let out = par_apply_gravity(&bodies, &self.root, &params);
        proof {
            assert(out@ =~= self.spec_next_bodies());
        }
        out
    }

    /// Applies one step of gravity to every body, one after another.
    fn next_bodies_serial(&self) -> (r: Vec<Entity>)
        requires
            self.wf(),
        ensures
            r@ == self.spec_next_bodies(),
            all_wf(r@),
            r@.len() == self.number_of_entities,
    {
        proof {
            self.lemma_next_bodies_wf();
            self.root.lemma_wf_mass(self.max_pts as int);
            self.root.lemma_wf_sound(self.max_pts as int);
        }
        let bodies = self.as_vec();
        let params = SimParams {
            theta: self.theta,
            max_pts: self.max_pts,
            time_step: self.time_step,
        };
        let mut out: Vec<Entity> = Vec::new();
        let mut i: usize = 0;
        while i < bodies.len()
            invariant
                i <= bodies@.len(),
                bodies@ == self.root.bodies(),
                self.wf(),
                self.root.sound(),
                all_wf(bodies@),
                params == self.params(),
                out@.len() == i as int,
                forall|j: int|
                    0 <= j < i as int ==> out@[j] == spec_apply_gravity(
                        #[trigger] bodies@[j],
                        self.root,
                        self.params(),
                    ),
            decreases bodies@.len() - i,
        {
            let e = bodies[i];
            proof {
                assert(bodies@[i as int].wf());
            }
            let stepped = e.apply_gravity_from(&self.root, &params);
            out.push(stepped);
            i = i + 1;
        }
        proof {
            assert(out@ =~= self.spec_next_bodies());
        }
        out
    }

    /// Every body of the next generation is well-formed, and there are
    /// as many of them as there are bodies now.
    pub proof fn lemma_next_bodies_wf(self)
        requires
            self.wf(),
    ensures
            all_wf(self.spec_next_bodies()),
            self.spec_next_bodies().len() == self.root.bodies().len(),
            1 <= self.spec_next_bodies().len() <= MAX_BODIES,
    {
        self.root.lemma_wf_mass(self.max_pts as int);
        let nb = self.spec_next_bodies();
        assert forall|i: int| 0 <= i < nb.len() implies nb[i].wf() by {
            assert(self.root.bodies()[i].wf());
            lemma_apply_gravity_wf(self.root.bodies()[i], self.root, self.params());
        }
    }
}

impl GravTree {
    /// Reads a tree from the text of a data file: one body per line,
    /// eight space-separated numbers. The parameters are supplied
    /// separately; they are not encoded in the data files, so that
    /// other consumers can read the files without issue. Returns an
    /// error when any record is malformed, when there is no body at
    /// all, when there are more bodies than a tree may hold, or when a
    /// value lies outside the accepted ranges.
    pub fn from_data_string(data: &str, theta: i64, max_pts: usize, time_step: i64) -> (r: Result<
        GravTree,
        &'static str,
    >)
        requires
            0 < theta <= MAX_THETA,
            max_pts >= 1,
            0 < time_step <= MAX_TIME_STEP,
        ensures
            match r {
                Ok(t) => {
                    &&& crate::codec::parse_text(data@) is Some
                    &&& {
                        let es = crate::codec::parse_text(data@)->0;
                        &&& 1 <= es.len() <= MAX_BODIES
                        &&& all_wf(es)
                        &&& t.wf()
                        &&& t.root.bodies() == crate::node::arrange_spec(es, max_pts as int)
                        &&& t.root.bodies().to_multiset() == es.to_multiset()
                        &&& t.number_of_entities == es.len()
                        &&& t.theta == theta
                        &&& t.max_pts == max_pts
                        &&& t.time_step == time_step
                    }
                },
                Err(m) => {
                    &&& m@ == "Input file invalid."@
                    &&& (crate::codec::parse_text(data@) is None || {
                        let es = crate::codec::parse_text(data@)->0;
                        es.len() == 0 || es.len() > MAX_BODIES || !all_wf(es)
                    })
                },
            },
    {
        let parsed = match crate::codec::parse_text_str(data) {
            Some(v) => v,
            None => {
                return Err("Input file invalid.");
            },
        };
        if parsed.len() == 0 || parsed.len() > MAX_BODIES {
            return Err("Input file invalid.");
        }
        let mut i: usize = 0;
        while i < parsed.len()
            invariant
                i <= parsed@.len(),
                crate::codec::parse_text(data@) is Some,
                parsed@ == crate::codec::parse_text(data@)->0,
                1 <= parsed@.len() <= MAX_BODIES,
                forall|j: int| 0 <= j < i as int ==> #[trigger] parsed@[j].wf(),
            decreases parsed@.len() - i,
        {
            if !parsed[i].is_wf() {
                return Err("Input file invalid.");
            }
            i = i + 1;
        }
        Ok(GravTree::new(parsed, theta, max_pts, time_step))
    }

    /// The text of this tree's bodies, one per line, compatible with
    /// outside visualization consumers.
    pub fn as_data_string(&self) -> (r: String)
        ensures
            r@ == crate::codec::file_text(self.root.bodies()),
    {
        crate::codec::data_string_of(self.as_vec())
    }
}

/// Relies on rayon's `par_iter().map(..).collect()`: collecting an
/// indexed parallel map into a vector yields one element per input, in
/// input order, each the image of the input at the same index. The
/// closure only calls the library's own `apply_gravity_from`.
#[verifier::external_body]
fn par_apply_gravity(bodies: &Vec<Entity>, root: &Node, params: &SimParams) -> (r: Vec<Entity>)
    requires
        all_wf(bodies@),
        root.sound(),
        params.wf(),
    ensures
        r@.len() == bodies@.len(),
        forall|i: int|
            0 <= i < bodies@.len() ==> r@[i] == spec_apply_gravity(
                #[trigger] bodies@[i],
                *root,
                *params,
            ),
{
    bodies.par_iter().map(|x| x.apply_gravity_from(root, params)).collect()
}

} // verus!
