use gravtree::entity::Entity;
use gravtree::gravtree::GravTree;

fn at_rest(x: i64, y: i64, z: i64, mass: i64) -> Entity {
    Entity { x, y, z, vx: 0, vy: 0, vz: 0, mass, radius: 0 }
}

#[test]
fn two_body_symmetry() {
    // Two equal unit masses at rest at (+1, 0, 0) and (-1, 0, 0).
    let bodies = vec![at_rest(1_000_000, 0, 0, 1_000_000), at_rest(-1_000_000, 0, 0, 1_000_000)];
    let tree = GravTree::new(bodies, 200_000, 3, 200_000);
    let stepped = tree.time_step();
    let out = stepped.as_vec();
    assert!(out.len() == 2);
    let plus = out.iter().find(|e| e.x > 0).unwrap();
    let minus = out.iter().find(|e| e.x < 0).unwrap();
    // velocities are symmetric and point toward each other
    assert!(plus.vx < 0 && minus.vx > 0);
    assert!(plus.vx == -minus.vx);
    assert!(plus.vy == 0 && plus.vz == 0 && minus.vy == 0 && minus.vz == 0);
    // the acceleration is m / d^2 = 1/4, so dv = 0.25 * 0.2 = 0.05
    assert!(plus.vx == -50_000);
    assert!(minus.vx == 50_000);
    // positions advance by the updated velocity over one time step
    assert!(plus.x == 990_000);
    assert!(minus.x == -990_000);
}

#[test]
fn step_preserves_count_and_params() {
    let mut vec: Vec<Entity> = Vec::new();
    for _ in 0..37 {
        vec.push(Entity::random_entity());
    }
    let tree = GravTree::new(vec, 200_000, 3, 200_000);
    let stepped = tree.time_step();
    assert!(stepped.get_number_of_entities() == tree.get_number_of_entities());
    assert!(stepped.as_vec().len() == 37);
    assert!(stepped.theta == tree.theta);
    assert!(stepped.max_pts == tree.max_pts);
    assert!(stepped.time_step == tree.time_step);
}

#[test]
fn step_is_deterministic() {
    let mut vec: Vec<Entity> = Vec::new();
    for _ in 0..64 {
        vec.push(Entity::random_entity());
    }
    let t1 = GravTree::new(vec.clone(), 200_000, 3, 200_000);
    let t2 = GravTree::new(vec, 200_000, 3, 200_000);
    assert!(t1.as_vec() == t2.as_vec());
    let s1 = t1.time_step();
    let s2 = t2.time_step();
    assert!(s1.as_vec() == s2.as_vec());
    // stepping the same tree twice gives the same output as well
    let s1_again = t1.time_step();
    assert!(s1.as_vec() == s1_again.as_vec());
}

#[test]
fn serial_and_parallel_step_agree() {
    let mut vec: Vec<Entity> = Vec::new();
    for _ in 0..128 {
        vec.push(Entity::random_entity());
    }
    let tree = GravTree::new(vec, 200_000, 3, 200_000);
    let parallel = tree.time_step();
    let serial = tree.time_step_serial();
    let pv = parallel.as_vec();
    let sv = serial.as_vec();
    assert!(pv == sv);
    // and the step actually moved something: a cluster of random
    // bodies does not stay perfectly still
    let before = tree.as_vec();
    assert!(pv != before);
}

#[test]
fn random_entities_are_in_range() {
    for _ in 0..100 {
        let e = Entity::random_entity();
        assert!(0 <= e.x && e.x < 1_000_000);
        assert!(0 <= e.y && e.y < 1_000_000);
        assert!(0 <= e.z && e.z < 1_000_000);
        assert!(0 <= e.vx && e.vx < 1_000_000);
        assert!(0 <= e.vy && e.vy < 1_000_000);
        assert!(0 <= e.vz && e.vz < 1_000_000);
        assert!(0 <= e.radius && e.radius < 1_000_000);
        assert!(1 <= e.mass && e.mass <= 1_000_000);
    }
}

#[test]
fn mass_is_conserved_across_steps() {
    let mut vec: Vec<Entity> = Vec::new();
    for _ in 0..25 {
        vec.push(Entity::random_entity());
    }
    let expected: i64 = vec.iter().map(|e| e.mass).sum();
    let tree = GravTree::new(vec, 200_000, 3, 200_000);
    assert!(tree.root.props().total_mass == expected);
    let stepped = tree.time_step();
    assert!(stepped.root.props().total_mass == expected);
}

#[test]
fn coincident_bodies_exert_nothing() {
    // Two bodies at the same point: the contribution is skipped, so
    // both stay exactly at rest.
    let bodies = vec![at_rest(5_000, 5_000, 5_000, 1_000_000), at_rest(5_000, 5_000, 5_000, 2_000_000)];
    let tree = GravTree::new(bodies, 200_000, 3, 200_000);
    let out = tree.time_step().as_vec();
    for e in out {
        assert!(e.vx == 0 && e.vy == 0 && e.vz == 0);
        assert!(e.x == 5_000 && e.y == 5_000 && e.z == 5_000);
    }
}
