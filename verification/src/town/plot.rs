//! What kind of place a settlement is, and what its lots carry.
use vstd::prelude::*;
use crate::model::Kind;
use super::{clamped, Zone};

verus! {

/// What kind of place a settlement is, off its own size.
#[derive(Clone, Copy, Debug, PartialEq, Eq, Structural)]
pub enum Tier {
    /// Houses and nothing else: no downtown, no square, one storey.
    Village,
    /// A downtown of one and two storey shops round a square.
    Town,
    /// Towers downtown, streets of two and three storey buildings, and
    /// suburbs.
    City,
}

impl Tier {
    /// A tier's name, as text.
    pub open spec fn label(self) -> Seq<char> {
        match self {
            Tier::Village => "village"@,
            Tier::Town => "town"@,
            Tier::City => "city"@,
        }
    }

    /// Its name, for a log.
    pub fn name(self) -> (r: &'static str)
        ensures
            r@ == self.label(),
    {
        match self {
            Tier::Village => "village",
            Tier::Town => "town",
            Tier::City => "city",
        }
    }
}

/// The hash under which a big city block downtown is a block rather
/// than a tower: the hash read as a fraction under 0.6.
pub const CITY_BLOCK_UNDER: u32 = 2_576_980_378;

/// The hash under which a suburban lot is a bungalow: under 0.45.
pub const BUNGALOW_UNDER: u32 = 1_932_735_284;

/// The hash under which a suburban lot that is no bungalow is a house
/// rather than a hangar: under 0.75.
pub const SUBURB_HOUSE_UNDER: u32 = 3_221_225_472;

/// The hash under which a city's lot off the middle is a house rather
/// than a shop: under 0.7.
pub const CITY_HOUSE_UNDER: u32 = 3_006_477_108;

/// The hash under which a town's lot off the middle is a house rather
/// than a shop: under 0.6.
pub const TOWN_HOUSE_UNDER: u32 = 2_576_980_378;

/// What kind of building a lot of a wanted height gets, and how many
/// storeys, by the settlement's tier and the block's zone and whether
/// the block is built big: towers in the middle of a city, shops in the
/// middle of a town, houses everywhere else, and the odd hangar among
/// them.
pub open spec fn lot_choice(tier: Tier, zone: Zone, big: bool, tall: u32, pick: u32) -> (Kind, u32) {
    if tier == Tier::City && big && zone == Zone::Core {
        if pick < CITY_BLOCK_UNDER {
            (Kind::Block, clamped(tall, 4, 8))
        } else {
            (Kind::Tower, clamped(tall, 3, 6))
        }
    } else if tier == Tier::City && big {
        (Kind::Block, clamped(tall, 4, 6))
    } else if big {
        (Kind::Shop, clamped(tall, 1, 2))
    } else if zone == Zone::Suburb {
        if pick < BUNGALOW_UNDER {
            (Kind::Bungalow, 1)
        } else if pick < SUBURB_HOUSE_UNDER {
            (Kind::House, 1)
        } else {
            (Kind::Hangar, 1)
        }
    } else if tier == Tier::City {
        if pick < CITY_HOUSE_UNDER {
            (Kind::House, clamped(tall, 1, 2))
        } else {
            (Kind::Shop, clamped(tall, 1, 3))
        }
    } else if pick < TOWN_HOUSE_UNDER {
        (Kind::House, clamped(tall, 1, 2))
    } else {
        (Kind::Shop, clamped(tall, 1, 2))
    }
}

fn clamp(v: u32, lo: u32, hi: u32) -> (r: u32)
    requires
        lo <= hi,
    ensures
        r == clamped(v, lo, hi),
{
    if v < lo {
        lo
    } else if v > hi {
        hi
    } else {
        v
    }
}

/// What kind of building a lot gets, and how many storeys, off the lot's
/// own hash `pick`.
pub fn choose_lot(tier: Tier, zone: Zone, big: bool, tall: u32, pick: u32) -> (r: (Kind, u32))
    ensures
        r == lot_choice(tier, zone, big, tall, pick),
{
    if tier == Tier::City && big && zone == Zone::Core {
        if pick < CITY_BLOCK_UNDER {
            (Kind::Block, clamp(tall, 4, 8))
        } else {
            (Kind::Tower, clamp(tall, 3, 6))
        }
    } else if tier == Tier::City && big {
        (Kind::Block, clamp(tall, 4, 6))
    } else if big {
        (Kind::Shop, clamp(tall, 1, 2))
    } else if zone == Zone::Suburb {
        if pick < BUNGALOW_UNDER {
            (Kind::Bungalow, 1)
        } else if pick < SUBURB_HOUSE_UNDER {
            (Kind::House, 1)
        } else {
            (Kind::Hangar, 1)
        }
    } else if tier == Tier::City {
        if pick < CITY_HOUSE_UNDER {
            (Kind::House, clamp(tall, 1, 2))
        } else {
            (Kind::Shop, clamp(tall, 1, 3))
        }
    } else if pick < TOWN_HOUSE_UNDER {
        (Kind::House, clamp(tall, 1, 2))
    } else {
        (Kind::Shop, clamp(tall, 1, 2))
    }
}

/// Every lot stands in as many storeys as its kind stands in, whatever
/// its tier, zone, height and hash.
pub proof fn lemma_lot_storeys_fit(tier: Tier, zone: Zone, big: bool, tall: u32, pick: u32)
    ensures
        lot_choice(tier, zone, big, tall, pick).0.storey_range().0 <= lot_choice(
            tier,
            zone,
            big,
            tall,
            pick,
        ).1 <= lot_choice(tier, zone, big, tall, pick).0.storey_range().1,
{
}

/// Outside a city nothing is a tower or a block, and nothing stands over
/// two storeys.
pub proof fn lemma_no_tower_outside_a_city(tier: Tier, zone: Zone, big: bool, tall: u32, pick: u32)
    requires
        tier != Tier::City,
    ensures
        lot_choice(tier, zone, big, tall, pick).0 != Kind::Tower,
        lot_choice(tier, zone, big, tall, pick).0 != Kind::Block,
        lot_choice(tier, zone, big, tall, pick).1 <= 2,
{
}

/// What every lot gets, with the hash `pick` read as a fraction of its
/// whole range: in the middle of a city a big block is a block of four to
/// eight storeys under 0.6 and a tower of three to six over it, and off
/// the middle a block of four to six; a big block of a town or a village
/// is a shop of one or two; a suburban lot is a bungalow under 0.45, a
/// house under 0.75 and a hangar over, all of one storey; any other lot
/// of a city is a house of one or two under 0.7 and a shop of one to three
/// over it; and any other lot of a town or a village a house of one or
/// two under 0.6 and a shop of one or two over it. Each height is the
/// wanted one, held within its kind's bounds.
pub proof fn lemma_what_each_lot_gets(tier: Tier, zone: Zone, big: bool, tall: u32, pick: u32)
    ensures
        ({
            let r = lot_choice(tier, zone, big, tall, pick);
            let whole = 0x1_0000_0000int;
            &&& tier == Tier::City && big && zone == Zone::Core ==> (if pick * 10 < 6 * whole {
                r == (Kind::Block, clamped(tall, 4, 8))
            } else {
                r == (Kind::Tower, clamped(tall, 3, 6))
            })
            &&& tier == Tier::City && big && zone != Zone::Core ==> r == (Kind::Block, clamped(tall, 4, 6))
            &&& tier != Tier::City && big ==> r == (Kind::Shop, clamped(tall, 1, 2))
            &&& !big && zone == Zone::Suburb ==> (if pick * 100 < 45 * whole {
                r == (Kind::Bungalow, 1u32)
            } else if pick * 100 < 75 * whole {
                r == (Kind::House, 1u32)
            } else {
                r == (Kind::Hangar, 1u32)
            })
            &&& tier == Tier::City && !big && zone != Zone::Suburb ==> (if pick * 10 < 7 * whole {
                r == (Kind::House, clamped(tall, 1, 2))
            } else {
                r == (Kind::Shop, clamped(tall, 1, 3))
            })
            &&& tier != Tier::City && !big && zone != Zone::Suburb ==> (if pick * 10 < 6 * whole {
                r == (Kind::House, clamped(tall, 1, 2))
            } else {
                r == (Kind::Shop, clamped(tall, 1, 2))
            })
        }),
{
}

} // verus!
