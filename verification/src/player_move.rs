//! A player's decision of one tick.

use crate::point::Point;
use vstd::prelude::*;

verus! {

/// The point that the player of this name steers toward.
#[derive(Clone, Debug)]
pub struct PlayerMove {
    pub name: String,
    pub target: Point,
}

} // verus!
