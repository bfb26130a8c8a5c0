//! A local two-player session: one board, alternating turns, a sticky
//! terminal status once a win is found, and the winning cells kept for
//! highlighting.
use vstd::prelude::*;

use crate::board::{chips_set, Board};
use crate::{spec_other, MoveOutcome, Player};

verus! {

/// The events a local game reacts to: a click on a column, or a reset.
pub enum Msg {
    ColumnClick(usize),
    Reset,
}

/// A game played on one machine: the board, the configured run length that
/// wins, whose turn it is, the winner once there is one, and the cells of the
/// winning lines.
#[derive(Clone, Debug)]
pub struct LocalGame {
    pub board: Board,
    pub win_length: usize,
    pub turn_player: Player,
    pub win_status: Option<Player>,
    pub winning_chips: Option<Vec<(usize, usize)>>,
}

/// How one requested move changes a local session: a sticky terminal state, a
/// range check on the column, insertion under gravity, win detection on the
/// new board, and the turn passing to the other player on every accepted
/// move, winning or not.
pub open spec fn local_move_transition(
    pre: LocalGame,
    post: LocalGame,
    r: MoveOutcome,
    column: int,
) -> bool {
    if pre.win_status is Some {
        post == pre && r == MoveOutcome::RejectedGameOver
    } else if column >= pre.board.width as int {
        post == pre && r == MoveOutcome::RejectedOutOfRange
    } else if pre.board.column_is_full(column) {
        post == pre && r == MoveOutcome::RejectedFull
    } else {
        let row = pre.board.occupied_in_column(column);
        &&& r == MoveOutcome::Accepted(row as usize)
        &&& post.board.width == pre.board.width
        &&& post.board.height == pre.board.height
        &&& forall|c: int, y: int|
            0 <= c < pre.board.width as int && 0 <= y < pre.board.height as int
                ==> #[trigger] post.board.cell(c, y) == if c == column && y == row {
                Some(pre.turn_player)
            } else {
                pre.board.cell(c, y)
            }
        &&& post.win_length == pre.win_length
        &&& post.turn_player == spec_other(pre.turn_player)
        &&& if post.board.wins(column, row, pre.turn_player, pre.win_length as int) {
            &&& post.win_status == Some(pre.turn_player)
            &&& post.winning_chips matches Some(v) && chips_set(v@) == post.board.winning_chips(
                column,
                row,
                pre.turn_player,
                pre.win_length as int,
            )
        } else {
            &&& post.win_status is None
            &&& post.winning_chips is None
        }
    }
}

impl LocalGame {
    /// A session is well formed when its board is, the board is reachable by
    /// insertions alone, the win length leaves room for the scan arithmetic,
    /// and the winning cells are recorded exactly when a winner is.
    pub open spec fn wf(self) -> bool {
        &&& self.board.wf()
        &&& self.board.gravity()
        &&& self.win_length <= 0x7fff_fe00
        &&& self.winning_chips is Some <==> self.win_status is Some
    }

    /// A fresh session: an empty board, player one to move, no winner.
    pub fn new(width: u8, height: u8, win_length: usize) -> (r: LocalGame)
        requires
            1 <= width,
            1 <= height,
            // the win scan runs its offsets in `i32`
            win_length <= 0x7fff_fe00,
        ensures
            r.wf(),
            r.board.width == width,
            r.board.height == height,
            r.win_length == win_length,
            r.turn_player == Player::One,
            r.win_status is None,
            r.winning_chips is None,
            forall|c: int, y: int|
                0 <= c < width as int && 0 <= y < height as int ==> #[trigger] r.board.cell(
                    c,
                    y,
                ) is None,
    {
        LocalGame {
            board: Board::new(width, height),
            win_length,
            turn_player: Player::One,
            win_status: None,
            winning_chips: None,
        }
    }

    /// Starts the session over with the same dimensions and win length: the
    /// grid is emptied, player one moves first, and the terminal status and
    /// the recorded winning cells are cleared, whatever came before.
    pub fn reset(&mut self)
        requires
            old(self).wf(),
        ensures
            final(self).wf(),
            final(self).board.width == old(self).board.width,
            final(self).board.height == old(self).board.height,
            final(self).win_length == old(self).win_length,
            final(self).turn_player == Player::One,
            final(self).win_status is None,
            final(self).winning_chips is None,
            forall|c: int, y: int|
                0 <= c < old(self).board.width as int && 0 <= y < old(self).board.height as int
                    ==> #[trigger] final(self).board.cell(c, y) is None,
    {
        let fresh = Self::new(self.board.width, self.board.height, self.win_length);
        self.replace(fresh);
    }

    /// Swaps the whole session for `replacement`.
    pub fn replace(&mut self, replacement: Self)
        ensures
            *final(self) == replacement,
    {
        *self = replacement;
    }

    /// Passes the turn to the other player.
    pub fn next_turn(&mut self)
        ensures
            final(self).turn_player == spec_other(old(self).turn_player),
            final(self).board == old(self).board,
            final(self).win_length == old(self).win_length,
            final(self).win_status == old(self).win_status,
            final(self).winning_chips == old(self).winning_chips,
    {
        self.turn_player = match self.turn_player {
            Player::One => Player::Two,
            Player::Two => Player::One,
        };
    }

    /// Plays the turn player's piece into `column`. A finished game, a column
    /// outside the board and a full column reject the move and leave the
    /// session unchanged; otherwise the piece lands on the lowest empty cell,
    /// a win sets the terminal status and records every winning cell, and the
    /// turn passes to the other player either way.
    pub fn apply_move(&mut self, column: usize) -> (r: MoveOutcome)
        requires
            old(self).wf(),
        ensures
            final(self).wf(),
            local_move_transition(*old(self), *final(self), r, column as int),
    {
        if self.win_status.is_some() {
            return MoveOutcome::RejectedGameOver;
        }
        if column >= self.board.width as usize {
            return MoveOutcome::RejectedOutOfRange;
        }
        let player = self.turn_player;
        let insert = self.board.insert(column, &player);
        match insert {
            Ok(row) => {
                if self.board.check_win(column, row, &player, self.win_length) {
                    self.win_status = Some(player);
                    self.winning_chips = Some(
                        self.board.find_winning_chips(column, row, &player, self.win_length),
                    );
                }
                self.next_turn();
                MoveOutcome::Accepted(row)
            },
            Err(_) => MoveOutcome::RejectedFull,
        }
    }

    /// Reacts to one event: a column click plays a move (a rejected move
    /// changes nothing), a reset starts the session over. The result reports
    /// whether anything may have changed, as a view layer expects: it is
    /// false exactly for a click on a finished game.
    pub fn update_game(&mut self, msg: Msg) -> (r: bool)
        requires
            old(self).wf(),
        ensures
            final(self).wf(),
            r == !(msg is ColumnClick && old(self).win_status is Some),
            match msg {
                Msg::ColumnClick(colnr) => exists|o: MoveOutcome|
                    local_move_transition(*old(self), *final(self), o, colnr as int),
                Msg::Reset => {
                    &&& final(self).board.width == old(self).board.width
                    &&& final(self).board.height == old(self).board.height
                    &&& final(self).win_length == old(self).win_length
                    &&& final(self).turn_player == Player::One
                    &&& final(self).win_status is None
                    &&& final(self).winning_chips is None
                    &&& forall|c: int, y: int|
                        0 <= c < old(self).board.width as int && 0 <= y < old(
                            self,
                        ).board.height as int ==> #[trigger] final(self).board.cell(c, y) is None
                },
            },
    {
        match msg {
            Msg::ColumnClick(colnr) => {
                if self.win_status.is_some() {
                    proof {
                        assert(local_move_transition(
                            *old(self),
                            *old(self),
                            MoveOutcome::RejectedGameOver,
                            colnr as int,
                        ));
                    }
                    return false;
                }
                let _ = self.apply_move(colnr);
                true
            },
            Msg::Reset => {
                self.reset();
                true
            },
        }
    }
}

} // verus!
