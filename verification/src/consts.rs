//! The physical limits of the arena.

use vstd::prelude::*;

verus! {

/// The largest acceleration a player can apply in one tick.
pub const MAX_ACC: i32 = 20;

/// The speed limit; a faster velocity is scaled back to it.
pub const MAX_SPEED: i32 = 100;

/// The largest radius of the items that the game places. The index over the
/// items looks this far round a player at least.
pub const MAX_ITEM_R: i32 = 50;

} // verus!
