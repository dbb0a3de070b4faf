//! A game in progress, and its dice.

use rand::{thread_rng, Rng};
use vstd::prelude::*;

use crate::board::Board;
use crate::player::Player;
use crate::slots::initial_layout;

verus! {

/// Highest face of a die.
pub const DIE_MAX: u8 = 6;

/// The face that a die shows, from 1 to [`DIE_MAX`]; 0 before the first
/// roll.
pub type Die = u8;

/// A roll of two dice.
pub type Dice = (Die, Die);

/// A board, the last roll, and the side that is to move.
#[derive(Debug, Clone, Copy, PartialEq)]
pub struct Game {
    pub board: Board,
    pub dice: Dice,
    pub turn: Player,
}

impl Game {
    /// Returns a game at its start: the starting position, dice that have
    /// not been rolled, and White to move.
    pub fn init() -> (game: Game)
        ensures
            game.board.board@ == initial_layout(),
            game.board.wf(),
            game.dice == (0u8, 0u8),
            game.turn == Player::White,
    {
        Game { board: Board::init(), dice: (0, 0), turn: Player::White }
    }
}

/// Draws a number from the thread's random number generator, with
/// `rand::thread_rng` and `rand::Rng::gen_range`.
///
/// Taken on trust, not proved: the number is at least `low` and less than
/// `high`, as `gen_range` documents. Nothing is claimed of which number it
/// is, and two calls may give two numbers. `gen_range` panics on an empty
/// range, hence `low < high`. `thread_rng` panics where the system gives it
/// no entropy to start from; no argument can rule that out.
#[verifier::external_body]
fn random_in_range(low: u8, high: u8) -> (n: u8)
    requires
        low < high,
    ensures
        low <= n < high,
{
    thread_rng().gen_range::<u8>(low, high)
}

/// Returns the face that a die shows for a number drawn from 0 up to, and
/// not including, [`DIE_MAX`]: one more than the number.
pub fn face_of(draw: u8) -> (die: Die)
    requires
        draw < DIE_MAX,
    ensures
        die == draw + 1,
{
    draw + 1
}

/// Rolls one die: draws a number below [`DIE_MAX`] and returns the face
/// that [`face_of`] gives for it.
pub fn roll_die() -> (die: Die)
    ensures
        1 <= die <= DIE_MAX,
{
    face_of(random_in_range(0, DIE_MAX))
}

/// Rolls two dice.
pub fn roll_dice() -> (dice: Dice)
    ensures
        1 <= dice.0 <= DIE_MAX,
        1 <= dice.1 <= DIE_MAX,
{
    (roll_die(), roll_die())
}

} // verus!
