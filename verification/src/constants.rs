//! Dimensions of the board.

use vstd::prelude::*;

verus! {

/// Number of slots of a board: the bar, the points and the bear-off tray.
pub const BOARD_SIZE: usize = 26;

/// Number of playable points.
pub const POINTS: usize = 24;

/// Slot of the bar in a player's view.
pub const BAR: usize = 0;

/// Slot of the bear-off tray in a player's view.
pub const BEAR_OFF: usize = 25;

/// Number of chequers that each side owns.
pub const CHEQUERS_PER_SIDE: u8 = 15;

} // verus!
