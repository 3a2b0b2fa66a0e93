//! Which SIDES of a block want a street: west, east, south and north.
use vstd::prelude::*;

verus! {

/// The block wants a street on its west side.
pub const WEST: u8 = 1;

/// The block wants a street on its east side.
pub const EAST: u8 = 2;

/// The block wants a street on its south side.
pub const SOUTH: u8 = 4;

/// The block wants a street on its north side.
pub const NORTH: u8 = 8;

/// The block wants a street on every side.
pub const ALL: u8 = 15;

} // verus!
