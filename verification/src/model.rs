//! What stands on a lot: the kinds of building, their storeys and the
//! trades their walls are built of, and which part of a town a fabric is
//! assembled from.
use vstd::prelude::*;
use crate::field::{BRICK, CONCRETE, CURTAIN, MARBLE, STONE, VINYL, WOOD};
use crate::noise::{mix3, spec_mix3};

verus! {

/// What a lot carries.
#[derive(Clone, Copy, Debug, PartialEq, Eq, Structural)]
pub enum Kind {
    /// A rectangular tower, four to eight storeys.
    Block,
    /// One or two storeys under a gable.
    House,
    /// One storey, wide windows, a flat roof.
    Bungalow,
    /// Round, three to six storeys.
    Tower,
    /// A shed under a barrel vault, with a tall door.
    Hangar,
    /// One to three storeys under a flat roof, in a trade's own skin.
    Shop,
}

/// Two to the thirty two: the hash's whole range.
pub open spec fn range32() -> int {
    0x1_0000_0000
}

impl Kind {
    /// A kind's name, as text.
    pub open spec fn label(self) -> Seq<char> {
        match self {
            Kind::Block => "block"@,
            Kind::House => "house"@,
            Kind::Bungalow => "bungalow"@,
            Kind::Tower => "tower"@,
            Kind::Hangar => "hangar"@,
            Kind::Shop => "shop"@,
        }
    }

    /// The fewest and the most storeys a kind stands in.
    pub open spec fn storey_range(self) -> (u32, u32) {
        match self {
            Kind::Block => (4, 8),
            Kind::House => (1, 2),
            Kind::Bungalow => (1, 1),
            Kind::Tower => (3, 6),
            Kind::Hangar => (1, 1),
            Kind::Shop => (1, 3),
        }
    }

    /// The trades a kind's walls may be built of, in the order a seed
    /// picks among them.
    pub open spec fn trades(self) -> Seq<u8> {
        match self {
            Kind::House | Kind::Bungalow => seq![WOOD, BRICK, VINYL],
            Kind::Block | Kind::Tower => seq![BRICK, CONCRETE, MARBLE, CURTAIN, STONE],
            Kind::Shop => seq![BRICK, CONCRETE, STONE, VINYL],
            Kind::Hangar => seq![CONCRETE],
        }
    }

    /// Which of the kind's trades a seed picks: the seed's hash, read as a
    /// fraction of its range, scaled to the count of trades and floored.
    pub open spec fn pick(self, seed: u32) -> int {
        spec_mix3(seed as i64, 0x5C11, 0x2E, 0x51DE) as int * self.trades().len() / range32()
    }

    /// Its name, for a log and for a picture's caption.
    pub fn name(self) -> (r: &'static str)
        ensures
            r@ == self.label(),
    {
        match self {
            Kind::Block => "block",
            Kind::House => "house",
            Kind::Bungalow => "bungalow",
            Kind::Tower => "tower",
            Kind::Hangar => "hangar",
            Kind::Shop => "shop",
        }
    }

    /// Whether the library carries a bake of this kind: every kind but a
    /// shop, which stands on one lot or on four and is built to measure.
    pub fn baked(self) -> (r: bool)
        ensures
            r == (self != Kind::Shop),
    {
        match self {
            Kind::Shop => false,
            _ => true,
        }
    }

    /// The fewest and the most storeys it stands in.
    pub fn storeys(self) -> (r: (u32, u32))
        ensures
            r == self.storey_range(),
            1 <= r.0 <= r.1,
    {
        match self {
            Kind::Block => (4, 8),
            Kind::House => (1, 2),
            Kind::Bungalow => (1, 1),
            Kind::Tower => (3, 6),
            Kind::Hangar => (1, 1),
            Kind::Shop => (1, 3),
        }
    }

    /// What its walls are made of, off its own seed and nothing else: a
    /// house of wood, brick or vinyl, an office of brick, concrete,
    /// marble, a curtain wall or stone, a shop of brick, concrete, stone
    /// or vinyl, and a hangar of concrete.
    pub fn skin(self, seed: u32) -> (r: u8)
        ensures
            0 <= self.pick(seed) < self.trades().len(),
            r == self.trades()[self.pick(seed)],
    {
        let trades: Vec<u8> = match self {
            Kind::House | Kind::Bungalow => vec![WOOD, BRICK, VINYL],
            Kind::Block | Kind::Tower => vec![BRICK, CONCRETE, MARBLE, CURTAIN, STONE],
            Kind::Shop => vec![BRICK, CONCRETE, STONE, VINYL],
            Kind::Hangar => vec![CONCRETE],
        };
        assert(trades@ == self.trades());
        let h: u64 = mix3(seed as i64, 0x5C11, 0x2E, 0x51DE) as u64;
        let n: u64 = trades.len() as u64;
        assert(h * n < 0x1_0000_0000 * n && h * n / 0x1_0000_0000 < n) by (nonlinear_arith)
            requires
                h < 0x1_0000_0000,
                1 <= n <= 5,
        ;
        let at: u64 = h * n / 0x1_0000_0000;
        trades[at as usize]
    }

    /// Every kind, so a harness can build one of each.
    pub fn all() -> (r: [Kind; 6])
        ensures
            r@ == seq![
                Kind::Block,
                Kind::House,
                Kind::Bungalow,
                Kind::Tower,
                Kind::Hangar,
                Kind::Shop,
            ],
    {
        let r = [Kind::Block, Kind::House, Kind::Bungalow, Kind::Tower, Kind::Hangar, Kind::Shop];
        assert(r@ =~= seq![
            Kind::Block,
            Kind::House,
            Kind::Bungalow,
            Kind::Tower,
            Kind::Hangar,
            Kind::Shop,
        ]);
        r
    }
}

/// Which of a town a fabric is built of, and which half of it: the lots
/// and the pieces of street by their places in the town's own lists, and
/// whether the triangles, the boxes and lamps, or both are wanted.
pub struct Part<'a> {
    pub lots: &'a [usize],
    pub pieces: &'a [usize],
    pub mesh: bool,
    pub solids: bool,
}

} // verus!
