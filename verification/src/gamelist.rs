//! The lobby directory: the record of one open game and the list a player
//! picks from.
use vstd::prelude::*;

use crate::IdType;

verus! {

/// One open game as the lobby listing shows it: who has joined, what the
/// game is called, and whether play has started.
#[derive(Clone, Debug)]
pub struct GameLobby {
    pub game_id: IdType,
    pub player1_id: Option<IdType>,
    pub player2_id: Option<IdType>,
    pub game_name: String,
    pub game_started: bool,
}

/// One where a value is present, zero where it is absent.
fn option_to_binary<T>(x: Option<T>) -> (r: i32)
    ensures
        r == if x is Some {
            1int
        } else {
            0int
        },
{
    match x {
        Some(_) => 1,
        None => 0,
    }
}

impl GameLobby {
    /// How many of the two seats are taken.
    pub fn number_players_joined(&self) -> (r: i32)
        ensures
            r == (if self.player1_id is Some {
                1int
            } else {
                0int
            }) + (if self.player2_id is Some {
                1int
            } else {
                0int
            }),
    {
        option_to_binary(self.player1_id) + option_to_binary(self.player2_id)
    }
}

/// The lobbies a request returned.
#[derive(Clone, Debug)]
pub struct GameList {
    pub games: Vec<GameLobby>,
}

} // verus!
