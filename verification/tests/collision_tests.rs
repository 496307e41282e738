use cs_flythrough::bsp::collision::{
    find_contact_plane, leaf_of, point_in_solid, CollisionData, CollisionNode, LeafContents,
};

/// One plane, x = 0, normal +X: in front is empty, behind is solid.
fn simple_bsp() -> CollisionData {
    CollisionData {
        nodes: vec![CollisionNode { plane_idx: 0, front: -1, back: -2 }],
        leaves: vec![LeafContents::Empty, LeafContents::Solid],
    }
}

/// Side of the plane x = 0 for a point, as the caller answers it.
fn sides(x: f32) -> Vec<bool> {
    vec![x - 0.0 >= 0.0]
}

#[test]
fn test_point_in_solid_empty() {
    let bsp = simple_bsp();
    assert!(!point_in_solid(&bsp, &sides(5.0)));
}

#[test]
fn test_point_in_solid_solid() {
    let bsp = simple_bsp();
    assert!(point_in_solid(&bsp, &sides(-5.0)));
}

#[test]
fn on_the_plane_counts_as_front() {
    assert!(!point_in_solid(&simple_bsp(), &sides(0.0)));
}

#[test]
fn walk_reaches_leaves() {
    let bsp = simple_bsp();
    assert_eq!(leaf_of(&bsp, &vec![true]), Some(0));
    assert_eq!(leaf_of(&bsp, &vec![false]), Some(1));
}

#[test]
fn broken_trees_reach_no_leaf() {
    // node 0 points back at itself on its front side
    let looping = CollisionData {
        nodes: vec![CollisionNode { plane_idx: 0, front: 0, back: -1 }],
        leaves: vec![LeafContents::Solid],
    };
    assert_eq!(leaf_of(&looping, &vec![true]), None);
    assert_eq!(leaf_of(&looping, &vec![false]), Some(0));
    // a missing plane
    assert_eq!(leaf_of(&simple_bsp(), &vec![]), None);
    // a missing node
    let dangling = CollisionData {
        nodes: vec![CollisionNode { plane_idx: 0, front: 5, back: -1 }],
        leaves: vec![LeafContents::Solid],
    };
    assert_eq!(leaf_of(&dangling, &vec![true]), None);
}

#[test]
fn missing_leaf_is_open() {
    let bsp = CollisionData {
        nodes: vec![CollisionNode { plane_idx: 0, front: -1, back: -7 }],
        leaves: vec![LeafContents::Solid],
    };
    assert!(!point_in_solid(&bsp, &vec![false]));
    assert!(point_in_solid(&bsp, &vec![true]));
}

#[test]
fn two_level_tree() {
    // plane 0: x >= 0 ; plane 1: y >= 0 ; solid only in the quadrant x >= 0, y < 0
    let bsp = CollisionData {
        nodes: vec![
            CollisionNode { plane_idx: 0, front: 1, back: -1 },
            CollisionNode { plane_idx: 1, front: -1, back: -2 },
        ],
        leaves: vec![LeafContents::Empty, LeafContents::Solid],
    };
    assert!(point_in_solid(&bsp, &vec![true, false]));
    assert!(!point_in_solid(&bsp, &vec![true, true]));
    assert!(!point_in_solid(&bsp, &vec![false, false]));
    // open point (x >= 0, y >= 0) and solid point (x >= 0, y < 0): plane 1 separates them
    assert_eq!(find_contact_plane(&bsp, &vec![true, true], &vec![true, false]), Some(1));
}

#[test]
fn contact_plane_of_the_wall() {
    let bsp = simple_bsp();
    assert_eq!(find_contact_plane(&bsp, &sides(5.0), &sides(-5.0)), Some(0));
    // both on the same side: nothing separates them
    assert_eq!(find_contact_plane(&bsp, &sides(-1.0), &sides(-5.0)), None);
}
