use vstd::prelude::*;

verus! {

// Indexes of a troll's characteristics.

/// Movement speed.
pub const MS: usize = 0;
/// Carry capacity.
pub const CAPA: usize = 1;
/// Harvest power.
pub const HARV: usize = 2;
/// Chop power.
pub const CHOP: usize = 3;

// Indexes of items and resources, and the objectives a troll can be given.

pub const PLUM: usize = 0;
pub const LEMON: usize = 1;
pub const APPLE: usize = 2;
pub const BANANA: usize = 3;
pub const IRON: usize = 4;
pub const WOOD: usize = 5;
pub const ANY: usize = 6;
pub const PLANT_PLUM: usize = 7;
pub const PLANT_LEMON: usize = 8;
pub const PLANT_APPLE: usize = 9;
pub const PLANT_BANANA: usize = 10;
pub const PLANT_ANY: usize = 11;
pub const CHOP_PLUM: usize = 11;
pub const CHOP_LEMON: usize = 12;
pub const CHOP_APPLE: usize = 13;
pub const CHOP_BANANA: usize = 14;
pub const CHOP_ANY: usize = 15;
pub const CUT_ALL: usize = 16;
pub const THIEF: usize = 17;
pub const THIEF_NO_WASTE: usize = 18;
pub const BANANA_TRICKS: usize = 19;

// Kinds of map.

/// The two shacks are far apart.
pub const DISTANT: usize = 0;
/// The two shacks are close to each other.
pub const NEAR: usize = 1;

} // verus!
