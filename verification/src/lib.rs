use vstd::prelude::*;

pub mod field;
pub mod model;
pub mod noise;
pub mod recipe;
pub mod road;
pub mod sphere;
pub mod stack;
pub mod tables;
pub mod town;
pub mod traffic;

verus! {

} // verus!
