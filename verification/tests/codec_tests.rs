use gravtree::dimension::Dimension;
use gravtree::entity::Entity;
use gravtree::gravtree::GravTree;

#[test]
fn entity_text_is_exact() {
    let e = Entity {
        x: 1_500_000,
        y: -250_000,
        z: 2_000_000,
        vx: 0,
        vy: 1,
        vz: -3_000_000,
        mass: 2_000_000,
        radius: 0,
    };
    assert_eq!(e.as_string(), "1.5 -0.25 2 0 0.000001 -3 2 0");
}

#[test]
fn scalar_text_edge_cases() {
    let e = Entity {
        x: 0,
        y: 500_000,
        z: 1_100_000,
        vx: 1_250_000,
        vy: -1,
        vz: 999_999_999_999,
        mass: 1,
        radius: 1_000_000,
    };
    assert_eq!(e.as_string(), "0 0.5 1.1 1.25 -0.000001 999999.999999 0.000001 1");
}

#[test]
fn data_text_reads_back() {
    let text = "1.5 -0.25 2 0 0.000001 -3 2 0\n";
    let tree = GravTree::from_data_string(text, 200_000, 3, 200_000).unwrap();
    let bodies = tree.as_vec();
    assert_eq!(bodies.len(), 1);
    let e = bodies[0];
    assert_eq!(e.x, 1_500_000);
    assert_eq!(e.y, -250_000);
    assert_eq!(e.z, 2_000_000);
    assert_eq!(e.vx, 0);
    assert_eq!(e.vy, 1);
    assert_eq!(e.vz, -3_000_000);
    assert_eq!(e.mass, 2_000_000);
    assert_eq!(e.radius, 0);
}

#[test]
fn whitespace_runs_are_accepted() {
    let text = "1  2   3 4 5 6 7 8\n";
    let tree = GravTree::from_data_string(text, 200_000, 3, 200_000).unwrap();
    assert_eq!(tree.get_number_of_entities(), 1);
    assert_eq!(tree.as_vec()[0].y, 2_000_000);
}

#[test]
fn trailing_text_without_newline_is_ignored() {
    let text = "1 2 3 4 5 6 7 8\n9 9 9 9 9 9 9";
    let tree = GravTree::from_data_string(text, 200_000, 3, 200_000).unwrap();
    assert_eq!(tree.get_number_of_entities(), 1);
}

#[test]
fn malformed_inputs_are_rejected() {
    let cases = [
        "",                            // no record at all
        "1 2 3 4 5 6 7\n",             // seven fields
        "1 2 3 4 5 6 7 8 9\n",         // nine fields
        "1 2 3 4 5 six 7 8\n",         // a non-numeric field
        "1 2 3 4 5 6 7 8..5\n",        // a second point
        "1 2 3 4 5 6 7 .5\n",          // no integer digits
        "1 2 3 4 5 6 7 8.\n",          // no fraction digits
        "1 2 3 4 5 6 7 1.1234567\n",   // more than six fraction digits
        "1 2 3 4 5 6 0 8\n",           // a zero mass is out of range
        "1 2 3 4 5 6 -1 8\n",          // a negative mass is out of range
        "1 2 3 4 5 6 7 -1\n",          // a negative radius is out of range
        "9999999 2 3 4 5 6 7 8\n",     // a coordinate beyond the accepted range
        "\n",                          // an empty record line
    ];
    for text in cases {
        match GravTree::from_data_string(text, 200_000, 3, 200_000) {
            Err(m) => assert_eq!(m, "Input file invalid."),
            Ok(_) => panic!("a malformed input was accepted: {:?}", text),
        }
    }
}

#[test]
fn round_trip_keeps_every_record() {
    let mut vec: Vec<Entity> = Vec::new();
    for _ in 0..20 {
        vec.push(Entity::random_entity());
    }
    vec.push(Entity {
        x: -999_999,
        y: 123,
        z: -1,
        vx: 500_000,
        vy: -500_000,
        vz: 0,
        mass: 1,
        radius: 999_999,
    });
    let tree = GravTree::new(vec.clone(), 200_000, 3, 200_000);
    let text = tree.as_data_string();
    let back = GravTree::from_data_string(text.as_str(), 200_000, 3, 200_000).unwrap();
    let mut a = tree.as_vec();
    let mut b = back.as_vec();
    assert_eq!(a.len(), b.len());
    // same multiset of records
    let key = |e: &Entity| (e.x, e.y, e.z, e.vx, e.vy, e.vz, e.mass, e.radius);
    a.sort_by_key(key);
    b.sort_by_key(key);
    assert_eq!(a, b);
}

#[test]
fn test_input() {
    // the reference scenario: a data text of 3601 bodies read with
    // theta 0.2, capacity 3 and time step 0.2 yields 3601 bodies
    let mut vec: Vec<Entity> = Vec::new();
    for _ in 0..3601 {
        vec.push(Entity::random_entity());
    }
    let text = GravTree::new(vec, 200_000, 3, 200_000).as_data_string();
    let test_tree = GravTree::from_data_string(text.as_str(), 200_000, 3, 200_000);
    assert!(test_tree.unwrap().as_vec().len() == 3601);
}

#[test]
fn test_output() {
    let mut test_vec: Vec<Entity> = Vec::new();
    for _ in 0..1000 {
        test_vec.push(Entity::random_entity());
    }
    let kd = GravTree::new(test_vec.clone(), 200_000, 3, 200_000);
    let written = kd.as_data_string();
    let test_tree = GravTree::from_data_string(written.as_str(), 200_000, 3, 200_000);
    assert!(test_vec.len() == test_tree.unwrap().as_vec().len());
}

#[test]
fn dimension_names() {
    assert_eq!(Dimension::X.as_string(), "X");
    assert_eq!(Dimension::Y.as_string(), "Y");
    assert_eq!(Dimension::Z.as_string(), "Z");
    assert_eq!(Dimension::NoDim.as_string(), "None");
}

#[test]
fn distances_are_exact() {
    let a = Entity { x: 0, y: 0, z: 0, vx: 0, vy: 0, vz: 0, mass: 1, radius: 0 };
    let b = Entity { x: 3_000_000, y: 4_000_000, z: 0, vx: 0, vy: 0, vz: 0, mass: 1, radius: 0 };
    assert_eq!(a.distance_squared(&b), 25_000_000_000_000u128);
    assert_eq!(a.distance(&b), 5_000_000u128);
    assert_eq!(a.distance_vector(&b), (3_000_000, 4_000_000, 0));
    assert_eq!(b.distance_vector(&a), (-3_000_000, -4_000_000, 0));
}
