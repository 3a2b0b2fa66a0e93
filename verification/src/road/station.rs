//! Filling stations: the dice each one is built from.
use vstd::prelude::*;
use crate::noise::{mix3, spec_mix3};

verus! {

/// A station's seed: the hash of the piece of road it stands on, scaled
/// from the hash's range onto `u32::MAX` and truncated, which is the hash
/// less one, and nought for a hash of nought.
pub open spec fn station_seed(piece: usize) -> u32 {
    let h = spec_mix3(piece as i64, 0x6A5, 0x5747, 0x9A5);
    if h == 0 { 0 } else { (h - 1) as u32 }
}

/// A station's own seed, off its piece, so two on one road are not
/// twins.
pub fn seed_of(piece: usize) -> (s: u32)
    ensures
        s == station_seed(piece),
{
    #[verifier::truncate]
    let at = piece as i64;
    let h = mix3(at, 0x6A5, 0x5747, 0x9A5);
    h.saturating_sub(1)
}

} // verus!
