use freeport_core::road::path::{ends, legs, neighbours, number, owner, steps_of, Leg};

fn k(x: i64) -> (i64, i64, i64) {
    (x, 0, 0)
}

#[test]
fn one_waypoint_read_off_two_roads_is_one_node() {
    let keys = vec![vec![k(5), k(1), k(3)], vec![k(3), k(9)]];
    let (nodes, firsts) = number(&keys);
    assert_eq!(nodes, vec![vec![2, 0, 1], vec![1, 3]]);
    assert_eq!(firsts, vec![(0, 1), (0, 2), (0, 0), (1, 1)]);
}

#[test]
fn nodes_are_numbered_in_the_order_of_their_keys() {
    let keys = vec![vec![(0, 5, -1), (0, 5, -2), (-3, 9, 9)], vec![(0, 5, -1)]];
    let (nodes, firsts) = number(&keys);
    assert_eq!(nodes, vec![vec![2, 1, 0], vec![2]]);
    assert_eq!(firsts.len(), 3);
    assert_eq!(firsts[2], (0, 0), "the first road to read a waypoint names it");
}

fn trunk() -> Vec<Vec<u32>> {
    // Three roads on one trunk between nodes 1 and 2.
    vec![vec![0, 1, 2], vec![1, 2, 3], vec![2, 1]]
}

#[test]
fn the_steps_are_sorted_with_every_road_that_runs_them() {
    assert_eq!(
        steps_of(&trunk()),
        vec![(0, 1, 0), (1, 2, 0), (1, 2, 1), (1, 2, 2), (2, 3, 1)]
    );
    // A road standing still at a waypoint takes no step there.
    assert_eq!(steps_of(&vec![vec![4, 4, 2]]), vec![(2, 4, 0)]);
}

#[test]
fn a_shared_step_is_run_on_the_lowest_numbered_road() {
    let steps = steps_of(&trunk());
    assert_eq!(owner(&steps, 1, 2), Some(0));
    assert_eq!(owner(&steps, 2, 1), Some(0));
    assert_eq!(owner(&steps, 3, 2), Some(1));
    assert_eq!(owner(&steps, 0, 3), None);
}

#[test]
fn a_trunk_three_roads_run_on_is_one_neighbour() {
    let out = neighbours(&trunk(), 4);
    assert_eq!(out, vec![vec![1], vec![0, 2], vec![1, 3], vec![2]]);
}

#[test]
fn a_step_has_two_ends_where_the_road_goes_on() {
    let nodes = trunk();
    assert_eq!(ends(&nodes, 1, 1), Some((2, 3)));
    assert_eq!(ends(&nodes, 1, 2), None);
    assert_eq!(ends(&nodes, 5, 0), None);
}

#[test]
fn a_run_on_one_road_is_one_leg() {
    let steps = steps_of(&trunk());
    let at: Vec<(i32, i32)> = vec![(0, 0), (1, 0), (2, 0), (3, 0)];
    let chain: Vec<u32> = vec![1, 2];
    let out = legs(&at, &steps, (-1, 0), 7, (4, 0), (0, 1), (2, 3), &chain);
    assert_eq!(
        out,
        vec![
            Leg { road: 0, from: (-1, 0), to: (2, 0) },
            Leg { road: 1, from: (2, 0), to: (4, 0) },
        ]
    );
}

#[test]
fn a_way_along_one_step_is_one_leg_on_its_road_or_the_one_it_started_on() {
    let steps = steps_of(&trunk());
    let at: Vec<(i32, i32)> = vec![(0, 0), (1, 0), (2, 0), (3, 0)];
    let none: Vec<u32> = Vec::new();
    let out = legs(&at, &steps, (5, 5), 7, (6, 6), (2, 3), (2, 3), &none);
    assert_eq!(out, vec![Leg { road: 1, from: (5, 5), to: (6, 6) }]);
    let out = legs(&at, &steps, (5, 5), 7, (6, 6), (0, 3), (0, 3), &none);
    assert_eq!(out, vec![Leg { road: 7, from: (5, 5), to: (6, 6) }]);
}
