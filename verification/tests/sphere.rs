use freeport_core::sphere::{select_by, Node, FACES};

fn area(n: &Node, depth: u8) -> u64 {
    1u64 << (2 * (depth - n.level))
}

#[test]
fn six_roots_one_a_face() {
    let roots = Node::roots();
    for (f, r) in roots.iter().enumerate() {
        assert_eq!(*r, Node { face: f as u8, level: 0, x: 0, y: 0 });
    }
    assert_eq!(FACES, 6);
}

#[test]
fn a_node_has_four_children_in_x_then_y_order() {
    let n = Node { face: 3, level: 2, x: 1, y: 3 };
    assert_eq!(
        n.children(),
        [
            Node { face: 3, level: 3, x: 2, y: 6 },
            Node { face: 3, level: 3, x: 3, y: 6 },
            Node { face: 3, level: 3, x: 2, y: 7 },
            Node { face: 3, level: 3, x: 3, y: 7 },
        ]
    );
}

#[test]
fn far_away_the_whole_planet_is_six_leaves() {
    let leaves = select_by(12, |_| false);
    assert_eq!(leaves.len(), 6);
    assert!(leaves.iter().all(|n| n.level == 0));
}

#[test]
fn cut_everywhere_a_tree_is_every_patch_at_its_depth() {
    let leaves = select_by(3, |_| true);
    assert_eq!(leaves.len(), 6 * 64);
    assert!(leaves.iter().all(|n| n.level == 3));
}

/// Cut only toward one corner of one face: the leaves still hold every
/// patch of every face once, and none is listed twice.
#[test]
fn the_leaves_partition_the_sphere() {
    let depth = 9u8;
    let leaves = select_by(depth, |n: Node| n.face == 2 && n.x == 0 && n.y == 0);
    for face in 0..FACES {
        let covered: u64 = leaves.iter().filter(|n| n.face == face).map(|n| area(n, depth)).sum();
        assert_eq!(covered, 1u64 << (2 * depth), "face {face} covers {covered}");
    }
    let mut sorted = leaves.clone();
    sorted.sort();
    assert_eq!(sorted, leaves, "the leaves are not sorted");
    sorted.dedup();
    assert_eq!(sorted.len(), leaves.len(), "a leaf is listed twice");
    assert_eq!(leaves.iter().filter(|n| n.level == depth).count(), 4);
    assert_eq!(leaves.len(), 5 + 3 * depth as usize + 1);
}

#[test]
fn a_patch_is_cut_only_where_the_rule_says_to_cut_it() {
    let leaves = select_by(5, |n: Node| n.face == 0 && n.level == 0);
    assert_eq!(leaves.len(), 9);
    let deep: Vec<&Node> = leaves.iter().filter(|n| n.level == 1).collect();
    assert_eq!(deep.len(), 4);
    assert!(deep.iter().all(|n| n.face == 0));
    assert!(leaves.iter().filter(|n| n.level == 0).all(|n| n.face != 0));
}
