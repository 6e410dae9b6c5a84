//! Rules engine for Ayoayo, a two-player sowing game of the Mancala family.
//!
//! `board` holds the cups and the two per-player stores (bank and hand) with
//! the primitive moves on them; `ayoayo` holds the game: a whole move with its
//! relay sowing, capture, the must-feed rule and the end of the game;
//! `command` reads what a player types.
use vstd::prelude::*;

pub mod ayoayo;
pub mod board;
pub mod command;

verus! {

/// One of the two sides of the board.
#[derive(Clone, Copy, Debug, PartialEq, Eq, Hash, Structural)]
pub enum Player {
    Player1,
    Player2,
}

impl Player {
    /// The opposing side.
    pub open spec fn other(self) -> Player {
        match self {
            Player::Player1 => Player::Player2,
            Player::Player2 => Player::Player1,
        }
    }

    pub fn next_player(&self) -> (r: Player)
        ensures
            r == self.other(),
    {
        match self {
            Player::Player1 => Player::Player2,
            Player::Player2 => Player::Player1,
        }
    }
}

/// Why a move was refused. A refused move leaves the game as it was.
#[derive(Clone, Copy, Debug, PartialEq, Eq, Structural)]
pub enum MancalaError {
    /// The move leaves a starving opponent without seeds although another
    /// move would have fed them.
    MustFeedError,
    /// The chosen cup holds no seeds (or nothing is in hand to sow).
    NoSeedsToSow,
    /// The chosen cup does not exist.
    NoSuchCup,
}

/// Where a game stands: whose turn it is, or how it ended.
#[derive(Clone, Copy, Debug, PartialEq, Eq, Structural)]
pub enum GameState {
    InProgress(Player),
    Won(Player),
    Draw,
}

} // verus!
