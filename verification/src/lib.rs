//! Connect-Four on a torus: a board whose edges wrap around, so winning
//! lines may run across the borders of the grid.
//!
//! The crate holds the game core: the grid with gravity-based insertion,
//! toroidal win detection, recovery of every cell that takes part in a win,
//! and the session state that tracks turns and the terminal status.
use vstd::prelude::*;

pub mod board;
pub mod connectgame;
pub mod gamelist;
pub mod localconnectgame;

verus! {

/// Identifier type for games and players as the surrounding services use it.
pub type IdType = u32;

/// The two players, identified by their turn order.
#[derive(PartialEq, Eq, Structural, Clone, Copy, Debug)]
pub enum Player {
    One,
    Two,
}

/// The numeric form under which a player is persisted.
pub open spec fn player_num(p: Player) -> u8 {
    match p {
        Player::One => 1,
        Player::Two => 2,
    }
}

impl Player {
    /// Decodes the persisted numeric form; only 1 and 2 stand for players.
    pub fn try_from(value: u8) -> (r: Result<Player, String>)
        ensures
            value == 1 ==> r == Ok::<Player, String>(Player::One),
            value == 2 ==> r == Ok::<Player, String>(Player::Two),
            (value != 1 && value != 2) ==> (r matches Err(e) && e@ == "Invalid player identifier"@),
    {
        match value {
            1 => Ok(Player::One),
            2 => Ok(Player::Two),
            _ => Err("Invalid player identifier".to_owned()),
        }
    }
}

/// The opponent of the given player.
pub open spec fn spec_other(p: Player) -> Player {
    match p {
        Player::One => Player::Two,
        Player::Two => Player::One,
    }
}

/// What a session did with a requested move. A move is accepted with the row
/// the piece landed in, or rejected without any change of state: because the
/// chosen column is full, because the acting player is not the turn player,
/// because the game is already won, or because the column index lies outside
/// the board.
#[derive(PartialEq, Eq, Structural, Clone, Copy, Debug)]
pub enum MoveOutcome {
    Accepted(usize),
    RejectedFull,
    RejectedOutOfTurn,
    RejectedGameOver,
    RejectedOutOfRange,
}

/// The body served for a request that matches no route.
pub fn not_found(uri: &str) -> (r: String)
    ensures
        r@ == "404: Get outta here!\n "@ + uri@,
{
    let mut body = "404: Get outta here!\n ".to_owned();
    body.append(uri);
    body
}

impl From<Player> for u8 {
    /// Encodes a player in its persisted numeric form.
    fn from(p: Player) -> (r: u8)
        ensures
            r == player_num(p),
    {
        match p {
            Player::One => 1,
            Player::Two => 2,
        }
    }
}

impl vstd::std_specs::convert::FromSpecImpl<Player> for u8 {
    open spec fn obeys_from_spec() -> bool {
        true
    }

    open spec fn from_spec(p: Player) -> u8 {
        player_num(p)
    }
}

} // verus!

