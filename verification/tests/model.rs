use freeport_core::field::{BRICK, CONCRETE, CURTAIN, MARBLE, STONE, VINYL, WOOD};
use freeport_core::model::{Kind, Part};

#[test]
fn every_kind_has_its_name() {
    let names: Vec<&str> = Kind::all().iter().map(|k| k.name()).collect();
    assert_eq!(names, vec!["block", "house", "bungalow", "tower", "hangar", "shop"]);
}

#[test]
fn every_kind_but_a_shop_is_baked() {
    for kind in Kind::all() {
        assert_eq!(kind.baked(), kind != Kind::Shop);
    }
}

#[test]
fn the_storeys_of_each_kind() {
    assert_eq!(Kind::Block.storeys(), (4, 8));
    assert_eq!(Kind::House.storeys(), (1, 2));
    assert_eq!(Kind::Bungalow.storeys(), (1, 1));
    assert_eq!(Kind::Tower.storeys(), (3, 6));
    assert_eq!(Kind::Hangar.storeys(), (1, 1));
    assert_eq!(Kind::Shop.storeys(), (1, 3));
}

#[test]
fn a_skin_is_the_seeds_own_pick_of_the_trades() {
    // The hash of seed 2 is 3,724,333,926: the last of three trades, the
    // fifth of five, the fourth of four.
    assert_eq!(Kind::House.skin(2), VINYL);
    assert_eq!(Kind::Block.skin(2), STONE);
    assert_eq!(Kind::Shop.skin(2), VINYL);
    assert_eq!(Kind::Hangar.skin(2), CONCRETE);
    // Seed 0 hashes to 1,183,397,815: the first of three, the second of five.
    assert_eq!(Kind::Bungalow.skin(0), WOOD);
    assert_eq!(Kind::Tower.skin(0), CONCRETE);
}

/// Every house is wood, brick or vinyl and every office is brick,
/// concrete, marble, glass or stone; a skin is a function of its seed
/// alone, and over enough seeds every trade of a kind turns up.
#[test]
fn a_house_and_an_office_are_built_of_different_trades() {
    let houses = [WOOD, BRICK, VINYL];
    let offices = [BRICK, CONCRETE, MARBLE, CURTAIN, STONE];
    let shops = [BRICK, CONCRETE, STONE, VINYL];
    let mut seen: Vec<(Kind, Vec<u8>)> = Vec::new();
    for kind in Kind::all() {
        let mut had: Vec<u8> = Vec::new();
        for seed in 0..600u32 {
            let skin = kind.skin(seed);
            assert_eq!(skin, kind.skin(seed), "{} is not a function of its seed", kind.name());
            let allowed: &[u8] = match kind {
                Kind::House | Kind::Bungalow => &houses,
                Kind::Block | Kind::Tower => &offices,
                Kind::Shop => &shops,
                Kind::Hangar => &[CONCRETE],
            };
            assert!(allowed.contains(&skin), "a {} came out of trade {skin}", kind.name());
            if !had.contains(&skin) {
                had.push(skin);
            }
        }
        had.sort_unstable();
        seen.push((kind, had));
    }
    for (kind, had) in &seen {
        let want = match kind {
            Kind::House | Kind::Bungalow => 3,
            Kind::Block | Kind::Tower => 5,
            Kind::Shop => 4,
            Kind::Hangar => 1,
        };
        assert_eq!(had.len(), want, "{} used {had:?} of {want} trades", kind.name());
    }
    let house = &seen.iter().find(|(k, _)| *k == Kind::House).expect("a house").1;
    assert!(!house.contains(&MARBLE) && !house.contains(&STONE) && !house.contains(&CURTAIN));
}

#[test]
fn a_part_names_lots_and_pieces_by_place() {
    let lots = [0usize, 2, 5];
    let pieces = [1usize];
    let part = Part { lots: &lots, pieces: &pieces, mesh: true, solids: false };
    assert_eq!(part.lots.len(), 3);
    assert_eq!(part.pieces[0], 1);
    assert!(part.mesh && !part.solids);
}

#[test]
fn over_six_hundred_seeds_every_kind_wears_every_one_of_its_trades() {
    let trades = [
        (Kind::House, vec![WOOD, BRICK, VINYL]),
        (Kind::Bungalow, vec![WOOD, BRICK, VINYL]),
        (Kind::Block, vec![BRICK, CONCRETE, MARBLE, CURTAIN, STONE]),
        (Kind::Tower, vec![BRICK, CONCRETE, MARBLE, CURTAIN, STONE]),
        (Kind::Shop, vec![BRICK, CONCRETE, STONE, VINYL]),
        (Kind::Hangar, vec![CONCRETE]),
    ];
    for (kind, want) in trades {
        let mut worn: Vec<u8> = (0..600u32).map(|s| kind.skin(s)).collect();
        worn.sort_unstable();
        worn.dedup();
        let mut want = want.clone();
        want.sort_unstable();
        assert_eq!(worn, want, "{kind:?}");
    }
}
