//! What a point of the world is made of: one byte a material, the same
//! byte in a mesh, in a collider box and in a recipe.
use vstd::prelude::*;

verus! {

/// The ground itself, and what a cut leaves behind.
pub const TERRAIN: u8 = 0;

/// Poured concrete: slabs, kerbs and the plainest walls.
pub const CONCRETE: u8 = 1;

/// Steel plate: pillars and trim.
pub const PLATE: u8 = 2;

/// A dark window pane.
pub const GLASS: u8 = 3;

/// A lamp's own glowing body.
pub const LAMP: u8 = 4;

/// A window pane lit from within.
pub const LIT: u8 = 5;

/// Tarmac.
pub const STREET: u8 = 6;

/// The paint on tarmac: a centreline dash or a crossing.
pub const PAINT: u8 = 7;

/// Red brick.
pub const BRICK: u8 = 8;

/// A glass curtain wall, which is not a pane.
pub const CURTAIN: u8 = 9;

/// Marble facing.
pub const MARBLE: u8 = 10;

/// Stone blocks.
pub const STONE: u8 = 11;

/// Vinyl siding.
pub const VINYL: u8 = 12;

/// Timber boards.
pub const WOOD: u8 = 13;

} // verus!
