use freeport_core::town::arm;
use freeport_core::town::fronts;
use freeport_core::town::street::streets_of;
use freeport_core::noise::mix3;
use freeport_core::town::{frontage, Zone};
use freeport_core::traffic::{agent_id, circuit_of, step, Key, Kind, Streets};

fn one_block() -> Streets {
    Streets::of(&streets_of(0, &[fronts::ALL]))
}

#[test]
fn a_step_moves_one_node_along_its_way() {
    assert_eq!(step((3, 4), 0), (4, 4));
    assert_eq!(step((3, 4), 1), (3, 5));
    assert_eq!(step((3, 4), 2), (2, 4));
    assert_eq!(step((3, 4), 3), (3, 3));
}

#[test]
fn one_blocks_streets_are_the_graph_of_its_paving() {
    let s = one_block();
    // Four streets round the block, each read off its three runs once.
    assert_eq!(s.len(), 4);
    assert!(!s.is_empty());
    assert_eq!(s.arms((0, 0)), arm::NORTH | arm::EAST);
    assert_eq!(s.arms((1, 0)), arm::NORTH | arm::WEST);
    assert_eq!(s.arms((0, 1)), arm::SOUTH | arm::EAST);
    assert_eq!(s.arms((1, 1)), arm::SOUTH | arm::WEST);
    assert_eq!(s.arms((2, 2)), 0);
    // Every crossing the plan drew carries the arms the graph has there.
    for p in streets_of(0, &[fronts::ALL]).iter().filter(|p| !p.run()) {
        assert_eq!(p.arms, s.arms((p.i, p.j)));
    }
}

#[test]
fn no_paving_is_no_street() {
    let s = Streets::of(&[]);
    assert_eq!(s.len(), 0);
    assert!(s.is_empty());
    assert!(s.directed().is_empty());
    assert!(s.faces().is_empty());
}

#[test]
fn every_street_is_walked_both_ways_once() {
    let s = one_block();
    let d = s.directed();
    assert_eq!(d.len(), 8);
    let mut sorted = d.clone();
    sorted.sort_unstable();
    assert_eq!(sorted, d);
    assert!(d.contains(&((0, 0), 0)));
    assert!(d.contains(&((1, 0), 2)));
    assert!(d.contains(&((0, 1), 3)));
    assert!(!d.contains(&((1, 1), 0)));
}

#[test]
fn a_face_walk_goes_round_a_block() {
    let s = one_block();
    // Along the south street eastward, the walk turns up the east street,
    // the first way round from the way back.
    assert_eq!(s.next((0, 0), 0), ((1, 0), 1));
    assert_eq!(s.next((1, 0), 1), ((1, 1), 2));
    assert_eq!(s.next((1, 1), 2), ((0, 1), 3));
    assert_eq!(s.next((0, 1), 3), ((0, 0), 0));
}

#[test]
fn a_dead_end_turns_the_walk_round() {
    // One block fronting only its west side: a single street north.
    let s = Streets::of(&streets_of(0, &[fronts::WEST]));
    assert_eq!(s.len(), 1);
    assert_eq!(s.next((0, 0), 1), ((0, 1), 3));
    assert_eq!(s.next((0, 1), 3), ((0, 0), 1));
}

/// Every directed street is on exactly one circuit, and a circuit closes.
#[test]
fn every_street_is_on_exactly_one_circuit() {
    for built in [
        vec![fronts::ALL],
        vec![fronts::WEST],
        vec![
            fronts::ALL,
            0,
            fronts::SOUTH,
            0,
            fronts::ALL,
            fronts::WEST,
            fronts::NORTH,
            0,
            fronts::ALL,
        ],
    ] {
        let n = if built.len() == 1 { 0 } else { 1 };
        let s = Streets::of(&streets_of(n, &built));
        let faces = s.faces();
        let d = s.directed();
        let mut seen: Vec<Key> = Vec::new();
        for f in &faces {
            assert!(f.len() >= 2);
            for (t, k) in f.iter().enumerate() {
                let next = f[(t + 1) % f.len()];
                assert_eq!(s.next(k.0, k.1), next, "a circuit jumps");
                assert!(!seen.contains(k), "{k:?} is on two circuits");
                seen.push(*k);
            }
        }
        seen.sort_unstable();
        assert_eq!(seen, d);
    }
}

#[test]
fn one_block_has_a_circuit_inside_and_one_outside() {
    let faces = one_block().faces();
    assert_eq!(faces.len(), 2);
    assert!(faces.iter().all(|f| f.len() == 4));
}

#[test]
fn an_agent_is_on_foot_or_driving() {
    assert_ne!(Kind::Foot, Kind::Car);
}

/// Every block a town builds on fronts a street, and from its corner the
/// streets lead to the middle of town: the town is one road network.
#[test]
fn every_block_of_a_zoned_grid_is_on_one_connected_road_network() {
    for seed in 0..12u32 {
        let n = 6i64;
        let wide = (2 * n + 1) as usize;
        let zones: Vec<Zone> = (0..wide * wide)
            .map(|c| match mix3(c as i64, 1, 2, seed) % 4 {
                0 => Zone::Away,
                1 => Zone::Suburb,
                2 => Zone::Town,
                _ => Zone::Core,
            })
            .collect();
        let built = frontage(n, &zones, seed);
        let s = Streets::of(&streets_of(n, &built));
        // Flood the graph from the middle of town.
        let mut reached: Vec<(i64, i64)> = vec![(0, 0)];
        let mut stack = vec![(0i64, 0i64)];
        while let Some(node) = stack.pop() {
            let arms = s.arms(node);
            for (way, bit) in [(0, arm::EAST), (1, arm::NORTH), (2, arm::WEST), (3, arm::SOUTH)] {
                if arms & bit != 0 {
                    let next = step(node, way);
                    if !reached.contains(&next) {
                        reached.push(next);
                        stack.push(next);
                    }
                }
            }
        }
        let mut built_blocks = 0;
        for i in -n..=n {
            for j in -n..=n {
                let at = ((i + n) * (2 * n + 1) + (j + n)) as usize;
                let zone = zones[at];
                if zone == Zone::Away || built[at] == 0 {
                    continue;
                }
                let kept = match zone {
                    Zone::Suburb => mix3(i, j, 0, seed) >= 1_932_735_284,
                    _ => mix3(i, j, 0, seed) >= 644_245_095,
                };
                if !kept {
                    continue;
                }
                built_blocks += 1;
                assert!(reached.contains(&(i, j)), "block ({i}, {j}) is stranded");
                assert!(s.arms((i, j)) & (arm::EAST | arm::NORTH) != 0, "block ({i}, {j}) fronts nothing");
            }
        }
        assert!(built_blocks > 0);
    }
}

#[test]
fn an_agent_rides_the_circuit_its_own_hash_picks() {
    assert_eq!(circuit_of(5, 0, 0, 7), 0);
    assert_eq!(circuit_of(5, 1, 0, 7), 1);
    assert_eq!(circuit_of(3, 10, 2, 99), 2);
    assert_eq!(circuit_of(1, 4, 4, 4), 0);
    for slot in 0..500 {
        assert!(circuit_of(7, slot, 3, 11) < 7);
    }
}

#[test]
fn an_agents_number_is_its_hash_less_one() {
    assert_eq!(agent_id(0, 0, 7), 4_183_286_387);
    assert_eq!(agent_id(1, 0, 7), 3_165_201_933);
    assert_eq!(agent_id(10, 2, 99), 1_239_903_431);
}

#[test]
fn each_face_starts_at_the_least_street_no_earlier_face_holds() {
    let faces = one_block().faces();
    let d = one_block().directed();
    assert_eq!(faces[0][0], d[0]);
    assert_eq!(faces[0][0], ((0, 0), 0));
    let first_free = d.iter().find(|k| !faces[0].contains(k)).copied();
    assert_eq!(Some(faces[1][0]), first_free);
    assert_eq!(faces[1][0], ((0, 0), 1));
}
