use gravtree::entity::Entity;
use gravtree::gravtree::GravTree;
use gravtree::node::Node;

/// This function is used for testing. It checks the number of nodes on
/// each side, along the "edge" of the tree. `left_nodes` is how many
/// nodes you expect to see along the left side, and `right_nodes` is
/// how many you expect to see along the right.
fn go_to_edges(grav_tree: GravTree, left_nodes: usize, right_nodes: usize) {
    let mut count_of_nodes = 0;
    let first = match &grav_tree.root {
        Node::Interior { left, .. } => left.as_ref(),
        Node::Leaf { .. } => panic!("null root node"),
    };
    let mut node = first;
    while let Node::Interior { left, .. } = node {
        count_of_nodes += 1;
        node = left.as_ref();
    }
    assert!(count_of_nodes == left_nodes);
    count_of_nodes = 0;
    let mut node2 = first;
    while let Node::Interior { right, .. } = node2 {
        count_of_nodes += 1;
        node2 = right.as_ref();
    }
    assert!(count_of_nodes == right_nodes);
}

#[test]
fn test_traversal() {
    let mut vec: Vec<Entity> = Vec::new();
    for _ in 0..100 {
        let entity = Entity::random_entity();
        vec.push(entity);
    }
    let vec_clone = vec.clone();
    let tree = GravTree::new(vec, 200_000, 3, 200_000);
    let traversed_vec = tree.as_vec();
    let mut all_found = true;
    for i in vec_clone {
        if !traversed_vec.contains(&i) {
            all_found = false;
        }
    }

    assert!(all_found);
}

#[test]
fn test_tree() {
    let mut vec_that_wants_to_be_a_kdtree: Vec<Entity> = Vec::new();
    for _ in 0..100 {
        for _ in 0..100 {
            for _ in 0..10 {
                let entity = Entity::random_entity();
                vec_that_wants_to_be_a_kdtree.push(entity);
            }
        }
    }
    let kdtree_test = GravTree::new(vec_that_wants_to_be_a_kdtree, 200_000, 3, 200_000);
    assert!(kdtree_test.get_number_of_entities() == 100000);
    go_to_edges(kdtree_test, 14usize, 15usize);
    let mut smaller_vec: Vec<Entity> = Vec::new();
    for _ in 0..50 {
        let entity = Entity::random_entity();
        smaller_vec.push(entity);
    }
    assert!(smaller_vec.len() == 50);
    // Testing center of mass assignment: bodies (1, 2, 3) and
    // (2, 1, 3), each of mass 2.0, have their center at (1.5, 1.5, 3).
    let vector = vec![
        Entity {
            vx: 0,
            vy: 0,
            vz: 0,
            x: 1_000_000,
            y: 2_000_000,
            z: 3_000_000,
            mass: 2_000_000,
            radius: 1_000_000,
        },
        Entity {
            vx: 0,
            vy: 0,
            vz: 0,
            x: 2_000_000,
            y: 1_000_000,
            z: 3_000_000,
            mass: 2_000_000,
            radius: 1_000_000,
        },
    ];
    let center_of_mass_test = GravTree::new(vector, 200_000, 3, 200_000);
    let props = center_of_mass_test.root.props();
    assert!((props.com_x, props.com_y, props.com_z) == (1_500_000, 1_500_000, 3_000_000));
}

#[test]
fn leaf_sizes_within_capacity() {
    fn walk(node: &Node, max_pts: usize) {
        match node {
            Node::Leaf { points, .. } => {
                assert!(points.len() >= 1 && points.len() <= max_pts);
            }
            Node::Interior { left, right, .. } => {
                walk(left, max_pts);
                walk(right, max_pts);
            }
        }
    }
    let mut vec: Vec<Entity> = Vec::new();
    for _ in 0..137 {
        vec.push(Entity::random_entity());
    }
    let tree = GravTree::new(vec, 200_000, 3, 200_000);
    walk(&tree.root, 3);
}

#[test]
fn interior_partition_and_box() {
    let mut vec: Vec<Entity> = Vec::new();
    for _ in 0..40 {
        vec.push(Entity::random_entity());
    }
    let tree = GravTree::new(vec.clone(), 200_000, 3, 200_000);
    // every body lies in the root's bounding box
    let props = tree.root.props();
    for e in tree.as_vec() {
        assert!(props.x_min <= e.x && e.x <= props.x_max);
        assert!(props.y_min <= e.y && e.y <= props.y_max);
        assert!(props.z_min <= e.z && e.z <= props.z_max);
    }
    // the split separates the children on the split axis
    if let Node::Interior { split_dimension, split_value, left, right, .. } = &tree.root {
        for e in left.traverse_tree_helper() {
            assert!(e.get_dim(split_dimension) <= *split_value);
        }
        for e in right.traverse_tree_helper() {
            assert!(e.get_dim(split_dimension) >= *split_value);
        }
    } else {
        panic!("a tree of 40 bodies with capacity 3 must have an interior root");
    }
    // total mass is the exact sum of the body masses
    let expected: i64 = vec.iter().map(|e| e.mass).sum();
    assert!(props.total_mass == expected);
}

#[test]
fn interior_com_combines_children() {
    let mut vec: Vec<Entity> = Vec::new();
    for _ in 0..10 {
        vec.push(Entity::random_entity());
    }
    let tree = GravTree::new(vec, 200_000, 3, 200_000);
    if let Node::Interior { left, right, properties, .. } = &tree.root {
        let lp = left.props();
        let rp = right.props();
        let tm = lp.total_mass + rp.total_mass;
        let comb = |a: i64, b: i64, ca: i64, cb: i64| -> i64 {
            let num = a as i128 * ca as i128 + b as i128 * cb as i128;
            let q = if num >= 0 {
                num / tm as i128
            } else {
                -((-num) / tm as i128)
            };
            q as i64
        };
        assert!(properties.total_mass == tm);
        assert!(properties.com_x == comb(lp.total_mass, rp.total_mass, lp.com_x, rp.com_x));
        assert!(properties.com_y == comb(lp.total_mass, rp.total_mass, lp.com_y, rp.com_y));
        assert!(properties.com_z == comb(lp.total_mass, rp.total_mass, lp.com_z, rp.com_z));
    } else {
        panic!("a tree of 10 bodies with capacity 3 must have an interior root");
    }
}
