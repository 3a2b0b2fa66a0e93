//! Which ARMS a crossing has: the four ways a street can leave it.
//!
//! They are the same four bits `fronts` uses, because they are the same
//! four directions.
use vstd::prelude::*;

verus! {

/// A street leaves the crossing west.
pub const WEST: u8 = 1;

/// A street leaves the crossing east.
pub const EAST: u8 = 2;

/// A street leaves the crossing south.
pub const SOUTH: u8 = 4;

/// A street leaves the crossing north.
pub const NORTH: u8 = 8;

} // verus!
