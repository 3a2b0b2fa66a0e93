use freeport_core::model::Kind;
use freeport_core::town::arm;
use freeport_core::town::fronts;
use freeport_core::town::plot::{choose_lot, Tier};
use freeport_core::town::street::{faces, home_run, paved, streets_of, CUTS};
use freeport_core::town::{
    choose_kind, frontage, is_left_empty, mark_block, town_seed, Zone, PLAZA_UNDER,
    SUBURB_EMPTY_UNDER,
};

#[test]
fn a_towns_seed_is_the_bodys_and_its_index() {
    assert_eq!(town_seed(7, 0), 7);
    assert_eq!(town_seed(7, 3), 7 + 3 * 977);
    assert_eq!(town_seed(u32::MAX, 1), 976);
}

#[test]
fn every_tier_has_its_name() {
    assert_eq!(Tier::Village.name(), "village");
    assert_eq!(Tier::Town.name(), "town");
    assert_eq!(Tier::City.name(), "city");
}

#[test]
fn a_crossroads_is_a_plus_and_its_corners_are_kerbed() {
    let all = arm::NORTH | arm::SOUTH | arm::EAST | arm::WEST;
    for bx in 0..3usize {
        for bz in 0..3usize {
            let corner = bx != 1 && bz != 1;
            assert_eq!(paved(all, bx, bz), !corner, "({bx}, {bz})");
        }
    }
}

#[test]
fn a_dead_end_closes_with_a_pavement_across_it() {
    assert!(paved(arm::NORTH, 1, 1));
    assert!(paved(arm::NORTH, 1, 2));
    assert!(!paved(arm::NORTH, 1, 0));
    assert!(!paved(arm::NORTH, 0, 1));
    assert!(!paved(arm::NORTH, 2, 1));
    assert!(!paved(0, 1, 2));
}

#[test]
fn a_suburban_block_fronts_the_side_its_road_home_is_on() {
    assert_eq!(faces(3, 1), fronts::SOUTH);
    assert_eq!(faces(-2, 2), fronts::SOUTH);
    assert_eq!(faces(1, -4), fronts::WEST);
    assert_eq!(faces(0, 0), fronts::SOUTH);
}

#[test]
fn the_road_home_is_an_l_out_along_the_far_axis_then_in() {
    assert_eq!(
        home_run(2, -1),
        vec![
            (0, -1, fronts::SOUTH),
            (1, -1, fronts::SOUTH),
            (2, -1, fronts::SOUTH),
            (0, -1, fronts::WEST),
            (0, 0, fronts::WEST),
        ]
    );
    assert_eq!(
        home_run(-1, 3),
        vec![
            (-1, 0, fronts::WEST),
            (-1, 1, fronts::WEST),
            (-1, 2, fronts::WEST),
            (-1, 3, fronts::WEST),
            (-1, 0, fronts::SOUTH),
            (0, 0, fronts::SOUTH),
        ]
    );
}

#[test]
fn one_block_built_on_every_side_is_ringed_by_four_streets() {
    let pieces = streets_of(0, &[fronts::ALL]);
    let runs: Vec<_> = pieces.iter().filter(|p| p.run()).collect();
    let crossings: Vec<_> = pieces.iter().filter(|p| !p.run()).collect();
    assert_eq!(runs.len(), 4 * CUTS as usize);
    assert_eq!(crossings.len(), 4);
    assert_eq!(runs.iter().filter(|p| p.northerly()).count(), 2 * CUTS as usize);
    for c in &crossings {
        let want = match (c.i, c.j) {
            (0, 0) => arm::NORTH | arm::EAST,
            (1, 0) => arm::NORTH | arm::WEST,
            (0, 1) => arm::SOUTH | arm::EAST,
            (1, 1) => arm::SOUTH | arm::WEST,
            other => panic!("a crossing at {other:?}"),
        };
        assert_eq!(c.arms, want);
    }
    // The runs come north first, line by line, then east, each cut in
    // order along its block.
    assert_eq!((runs[0].i, runs[0].j, runs[0].k, runs[0].north), (0, 0, 0, true));
    assert_eq!((runs[2].i, runs[2].j, runs[2].k, runs[2].north), (0, 0, 2, true));
    assert_eq!((runs[3].i, runs[3].j, runs[3].k, runs[3].north), (1, 0, 0, true));
    assert_eq!((runs[6].i, runs[6].j, runs[6].k, runs[6].north), (0, 0, 0, false));
    assert_eq!((runs[9].i, runs[9].j, runs[9].k, runs[9].north), (0, 1, 0, false));
}

#[test]
fn nothing_built_is_no_street() {
    assert!(streets_of(2, &vec![0u8; 25]).is_empty());
}

#[test]
fn a_block_is_left_empty_off_its_own_hash() {
    assert!(is_left_empty(Zone::Suburb, SUBURB_EMPTY_UNDER - 1));
    assert!(!is_left_empty(Zone::Suburb, SUBURB_EMPTY_UNDER));
    assert!(is_left_empty(Zone::Town, PLAZA_UNDER - 1));
    assert!(!is_left_empty(Zone::Core, PLAZA_UNDER));
}

#[test]
fn the_kind_of_a_lot_off_its_height_and_its_hash() {
    assert_eq!(choose_kind(6, 0), (Kind::Block, 6));
    assert_eq!(choose_kind(11, 0), (Kind::Block, 8));
    assert_eq!(choose_kind(11, u32::MAX), (Kind::Tower, 5));
    assert_eq!(choose_kind(4, 2_576_980_377), (Kind::Block, 4));
    assert_eq!(choose_kind(4, 2_576_980_378), (Kind::Tower, 4));
    assert_eq!(choose_kind(1, 0), (Kind::Bungalow, 1));
    assert_eq!(choose_kind(1, 2_000_000_000), (Kind::House, 1));
    assert_eq!(choose_kind(1, 3_500_000_000), (Kind::Hangar, 1));
    assert_eq!(choose_kind(2, 0), (Kind::House, 2));
    assert_eq!(choose_kind(3, 4_000_000_000), (Kind::Block, 4));
}

#[test]
fn a_lots_storeys_lie_within_its_kinds_own() {
    for tall in [1u32, 4, 5, 6, 7, 8, 9, 20] {
        for pick in (0..=u32::MAX).step_by(97_000_001) {
            let (kind, storeys) = choose_kind(tall, pick);
            let (lo, hi) = kind.storeys();
            assert!(lo <= storeys && storeys <= hi, "{kind:?} of {storeys} from {tall}");
        }
    }
}

#[test]
fn a_block_marks_its_frontage_and_its_road_home() {
    let mut built = vec![0u8; 25];
    mark_block(&mut built, 2, 2, -1, true);
    // Row i, column j, from -2: the block itself fronts south, and the
    // road home runs south of (0..=2, -1) and west of (0, -1..=0).
    let at = |b: &Vec<u8>, i: i64, j: i64| b[((i + 2) * 5 + (j + 2)) as usize];
    assert_eq!(at(&built, 2, -1), fronts::SOUTH);
    assert_eq!(at(&built, 1, -1), fronts::SOUTH);
    assert_eq!(at(&built, 0, -1), fronts::SOUTH | fronts::WEST);
    assert_eq!(at(&built, 0, 0), fronts::WEST);
    assert_eq!(built.iter().filter(|b| **b != 0).count(), 4);
    mark_block(&mut built, 2, 0, 0, false);
    assert_eq!(at(&built, 0, 0), fronts::ALL);
}

#[test]
fn a_towns_frontage_off_its_zones() {
    assert_eq!(frontage(1, &[Zone::Town; 9], 3), vec![15u8; 9]);
    assert_eq!(frontage(1, &[Zone::Suburb; 9], 3), vec![0, 4, 0, 1, 5, 1, 0, 4, 0]);
    let zones = [
        Zone::Away,
        Zone::Suburb,
        Zone::Town,
        Zone::Away,
        Zone::Away,
        Zone::Away,
        Zone::Suburb,
        Zone::Away,
        Zone::Core,
    ];
    assert_eq!(frontage(1, &zones, 1), vec![0, 0, 15, 0, 1, 5, 0, 0, 15]);
    assert_eq!(frontage(1, &[Zone::Away; 9], 1), vec![0u8; 9]);
}

/// Every road home ends at the middle block, so wherever a town builds,
/// the middle block is paved.
#[test]
fn every_road_home_ends_at_the_middle_block() {
    let n = 4i64;
    let wide = (2 * n + 1) as usize;
    let zones = vec![Zone::Suburb; wide * wide];
    let built = frontage(n, &zones, 11);
    let pieces = streets_of(n, &built);
    let runs = pieces.iter().filter(|p| p.run()).count();
    assert!(runs > 0);
    // Any marked block's road home crosses line 0 or row 0.
    assert!(built[(n as usize) * wide + n as usize] != 0);
}

#[test]
fn a_lot_in_a_city_is_a_block_or_a_tower_a_town_lot_a_shop_and_a_village_lot_a_house() {
    assert_eq!(choose_lot(Tier::City, Zone::Core, true, 9, 0), (Kind::Block, 8));
    assert_eq!(choose_lot(Tier::City, Zone::Core, true, 9, u32::MAX), (Kind::Tower, 6));
    assert_eq!(choose_lot(Tier::City, Zone::Town, true, 2, 0), (Kind::Block, 4));
    assert_eq!(choose_lot(Tier::Town, Zone::Core, true, 5, 0), (Kind::Shop, 2));
    assert_eq!(choose_lot(Tier::Village, Zone::Suburb, false, 3, 0), (Kind::Bungalow, 1));
    assert_eq!(choose_lot(Tier::Village, Zone::Suburb, false, 3, 3_000_000_000), (Kind::House, 1));
    assert_eq!(choose_lot(Tier::Village, Zone::Suburb, false, 3, 3_300_000_000), (Kind::Hangar, 1));
    assert_eq!(choose_lot(Tier::City, Zone::Town, false, 3, 0), (Kind::House, 2));
    assert_eq!(choose_lot(Tier::City, Zone::Town, false, 3, 3_100_000_000), (Kind::Shop, 3));
    assert_eq!(choose_lot(Tier::Town, Zone::Town, false, 3, 2_600_000_000), (Kind::Shop, 2));
    for tier in [Tier::Village, Tier::Town, Tier::City] {
        for zone in [Zone::Suburb, Zone::Town, Zone::Core] {
            for big in [false, true] {
                for tall in 0..12u32 {
                    for pick in (0..=u32::MAX).step_by(250_000_001) {
                        let (kind, storeys) = choose_lot(tier, zone, big, tall, pick);
                        let (lo, hi) = kind.storeys();
                        assert!(lo <= storeys && storeys <= hi);
                        if tier != Tier::City {
                            assert!(kind != Kind::Tower && kind != Kind::Block && storeys <= 2);
                        }
                    }
                }
            }
        }
    }
}

#[test]
fn the_road_home_is_an_l_into_the_middle() {
    let marks = home_run(3, -2);
    assert_eq!(marks.len(), 3 + 2 + 2);
    assert!(marks.contains(&(3, -2, freeport_core::town::fronts::SOUTH)));
    assert!(marks.iter().any(|m| m.0 == 0 && m.1 == 0));
    let marks = home_run(-1, 4);
    assert_eq!(marks.len(), 1 + 4 + 2);
    assert!(marks.contains(&(-1, 4, freeport_core::town::fronts::WEST)));
}

#[test]
fn the_runs_come_whole_and_first_and_the_crossings_in_order_of_place() {
    let built = [fronts::ALL, 0, fronts::SOUTH, 0, fronts::ALL, fronts::WEST, 0, 0, fronts::ALL];
    let pieces = streets_of(1, &built);
    let first_crossing = pieces.iter().position(|p| p.arms != 0).unwrap();
    assert!(pieces[first_crossing..].iter().all(|p| p.arms != 0));
    for p in pieces.iter().filter(|p| p.arms == 0) {
        for k in 0..CUTS {
            assert!(pieces.iter().any(|q| q.arms == 0 && q.i == p.i && q.j == p.j && q.north == p.north && q.k == k));
        }
    }
    let places: Vec<(i64, i64)> = pieces[first_crossing..].iter().map(|p| (p.i, p.j)).collect();
    assert!(places.windows(2).all(|w| w[0] < w[1]));
}
