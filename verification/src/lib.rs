//! A library for checking backgammon games.
//!
//! `backgammon_logic` sets up boards, reads move notation, decides whether a
//! single chequer movement is legal and carries it out.
//!
//! # Conventions
//!
//! The board is stored once, in absolute numbering. Every rule is stated on
//! the view of the player to move, in which the player's chequers travel from
//! the bar in slot 0 towards the bear-off tray in slot 25.

pub mod board;
pub mod constants;
pub mod game;
pub mod moves;
pub mod notation;
pub mod player;
pub mod round_trip;
pub mod rules;
pub mod slots;
