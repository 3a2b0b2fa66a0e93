use freeport_core::road::{key_of, walk_back};
use freeport_core::road::ribbon::{count, span, STRETCH};
use freeport_core::road::station::seed_of;
use freeport_core::road::trunk::runs;

#[test]
fn a_cells_key_is_its_three_places_twenty_one_bits_each() {
    assert_eq!(key_of([0, 0, 0]), 4_611_688_217_451_692_032);
    assert_eq!(key_of([1, -1, 2]), 4_611_692_615_496_105_986);
    assert_eq!(key_of([-(1 << 20), 0, (1 << 20) - 1]), 2_199_025_352_703);
    assert_eq!(key_of([-3, 5, -7]), 4_611_675_023_322_644_473);
}

#[test]
fn a_cell_past_the_grid_wraps_round_its_axis() {
    assert_eq!(key_of([1 << 20, 0, 0]), 2_199_024_304_128);
    assert_eq!(key_of([1 << 20, 0, 0]), key_of([-(1 << 20), 0, 0]));
}

#[test]
fn the_keys_of_a_neighbourhood_are_all_apart() {
    let mut keys = Vec::new();
    for x in -2..=2 {
        for y in -2..=2 {
            for z in -2..=2 {
                keys.push(key_of([x, y, z]));
            }
        }
    }
    let n = keys.len();
    let sorted = {
        let mut k = keys.clone();
        k.sort_unstable();
        k.dedup();
        k
    };
    assert_eq!(sorted.len(), n);
    // And they sort as the cells do, the first axis most significant.
    assert!(key_of([-1, 2, 2]) < key_of([0, -2, -2]));
    assert!(key_of([0, -1, 2]) < key_of([0, 0, -2]));
}

#[test]
fn how_many_stretches_a_run_is_built_in() {
    assert_eq!(count(0), 0);
    assert_eq!(count(1), 0);
    assert_eq!(count(2), 1);
    assert_eq!(count(STRETCH + 1), 1);
    assert_eq!(count(STRETCH + 2), 2);
    assert_eq!(count(2 * STRETCH + 1), 2);
    assert_eq!(count(1000), 16);
}

#[test]
fn a_stretch_covers_its_points_ends_included() {
    assert_eq!(span(0, 1000), 0..65);
    assert_eq!(span(1, 1000), 64..129);
    assert_eq!(span(15, 1000), 960..1000);
    assert_eq!(span(16, 1000), 1000..1000);
    assert_eq!(span(0, 10), 0..10);
    assert_eq!(span(3, 10), 10..10);
}

/// Neighbouring stretches share the point where their tarmac meets, and
/// together they run the whole centreline.
#[test]
fn the_stretches_of_a_run_tile_it() {
    for points in 2..400usize {
        let n = count(points);
        assert!(n >= 1);
        assert_eq!(span(0, points).start, 0);
        for k in 0..n {
            let at = span(k, points);
            assert!(at.end >= at.start + 2, "stretch {k} of {points} holds no piece");
            assert!(at.end - at.start <= STRETCH + 1);
            if k + 1 < n {
                assert_eq!(at.end - 1, span(k + 1, points).start);
            } else {
                assert_eq!(at.end, points);
            }
        }
    }
}

#[test]
fn a_stations_seed_is_its_pieces_hash_less_one() {
    assert_eq!(seed_of(0), 950_900_374);
    assert_eq!(seed_of(1), 4_121_966_217);
    assert_eq!(seed_of(7), 2_947_518_993);
    assert_eq!(seed_of(100), 1_471_321_042);
    assert_ne!(seed_of(3), seed_of(4));
}

fn bits(s: &str) -> Vec<bool> {
    s.chars().map(|c| c == '1').collect()
}

#[test]
fn a_trunk_is_a_run_of_three_points_or_more_with_its_fork_zone() {
    let on = bits("0011110001100111110000111");
    let near = bits("0111111111101111111110111");
    assert_eq!(runs(&on, &near), vec![(2, 5, 1, 10), (13, 17, 12, 20), (22, 24, 22, 24)]);
}

#[test]
fn two_roads_crossing_share_no_trunk() {
    assert!(runs(&bits("0110"), &bits("1111")).is_empty());
    assert!(runs(&[], &[]).is_empty());
    assert_eq!(runs(&bits("111"), &bits("111")), vec![(0, 2, 0, 2)]);
}

/// A fork zone stops at the neighbouring run's own, so every point is
/// pinned once, however far the owner's corridor runs.
#[test]
fn every_point_is_pinned_once() {
    let on = bits("1110111011100111");
    let near = vec![true; on.len()];
    let zones = runs(&on, &near);
    assert_eq!(zones, vec![(0, 2, 0, 3), (4, 6, 4, 7), (8, 10, 8, 12), (13, 15, 13, 15)]);
    for w in zones.windows(2) {
        assert!(w[0].3 < w[1].2);
    }
}

#[test]
fn the_walk_back_follows_each_waypoint_to_the_one_it_was_reached_from() {
    // Waypoint 0 is a town's own; 4 was reached from off the field.
    let from: Vec<u32> = vec![0, 0, 1, 2, 9];
    assert_eq!(walk_back(&from, 3), vec![3, 2, 1, 0]);
    assert_eq!(walk_back(&from, 0), vec![0]);
    assert_eq!(walk_back(&from, 4), vec![4]);
}

#[test]
fn a_walk_back_round_a_loop_stops_after_one_step_a_waypoint() {
    let from: Vec<u32> = vec![1, 0];
    assert_eq!(walk_back(&from, 0), vec![0, 1, 0]);
}

#[test]
fn where_every_step_is_nearer_a_town_the_walk_back_ends_at_it() {
    // Two towns, at 0 and 5; each waypoint reached from a nearer one.
    let from: Vec<u32> = vec![0, 0, 1, 2, 5, 5, 4];
    let out = walk_back(&from, 3);
    assert_eq!(out, vec![3, 2, 1, 0]);
    let out = walk_back(&from, 6);
    assert_eq!(out, vec![6, 4, 5]);
    assert_eq!(from[*out.last().unwrap()] as usize, *out.last().unwrap());
}
