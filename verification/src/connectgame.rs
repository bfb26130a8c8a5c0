//! A networked two-player session: the shared game record that is persisted
//! and fetched, the move rules including the turn-identity check, and the
//! state of a component that caches fetched data and produces the record to
//! save after an accepted move.
use vstd::prelude::*;

use crate::board::{chips_set, lemma_occupied_congruent, Board};
use crate::{spec_other, MoveOutcome, Player};

verus! {

/// The shared record of one networked game: the board and turn state
/// together with the identities of the game and of both players.
#[derive(Clone, Debug)]
pub struct GameData {
    pub game_id: u64,
    pub board: Board,
    pub win_length: u8,
    pub turn_player: Player,
    pub win_status: Option<Player>,
    pub winning_chips: Option<Vec<(usize, usize)>>,
    pub player1_id: u64,
    pub player2_id: u64,
}

/// The identity whose turn it is: the mover must present this identity.
pub open spec fn spec_turn_player_id(d: GameData) -> u64 {
    match d.turn_player {
        Player::One => d.player1_id,
        Player::Two => d.player2_id,
    }
}

/// Two records that hold the same game: every scalar field equal, the grids
/// equal column for column, and the same winning cells recorded.
pub open spec fn same_record(a: GameData, b: GameData) -> bool {
    &&& a.game_id == b.game_id
    &&& a.board.width == b.board.width
    &&& a.board.height == b.board.height
    &&& a.board.board@.len() == b.board.board@.len()
    &&& forall|c: int|
        0 <= c < a.board.board@.len() ==> (#[trigger] a.board.board@[c])@ == (b.board.board@[c])@
    &&& a.win_length == b.win_length
    &&& a.turn_player == b.turn_player
    &&& a.win_status == b.win_status
    &&& match (a.winning_chips, b.winning_chips) {
        (Some(v1), Some(v2)) => v1@ == v2@,
        (None, None) => true,
        _ => false,
    }
    &&& a.player1_id == b.player1_id
    &&& a.player2_id == b.player2_id
}

/// How one requested move changes the shared record: a sticky terminal state,
/// the turn-identity check, a range check on the column, insertion under
/// gravity, win detection on the new board, and the turn passing to the other
/// player on every accepted move.
pub open spec fn move_transition(
    pre: GameData,
    post: GameData,
    r: MoveOutcome,
    column: int,
    actor_id: u64,
) -> bool {
    if pre.win_status is Some {
        post == pre && r == MoveOutcome::RejectedGameOver
    } else if actor_id != spec_turn_player_id(pre) {
        post == pre && r == MoveOutcome::RejectedOutOfTurn
    } else if column >= pre.board.width as int {
        post == pre && r == MoveOutcome::RejectedOutOfRange
    } else if pre.board.column_is_full(column) {
        post == pre && r == MoveOutcome::RejectedFull
    } else {
        let row = pre.board.occupied_in_column(column);
        &&& r == MoveOutcome::Accepted(row as usize)
        &&& post.board.width == pre.board.width
        &&& post.board.height == pre.board.height
        &&& forall|c: int, y: int|
            0 <= c < pre.board.width as int && 0 <= y < pre.board.height as int
                ==> #[trigger] post.board.cell(c, y) == if c == column && y == row {
                Some(pre.turn_player)
            } else {
                pre.board.cell(c, y)
            }
        &&& post.game_id == pre.game_id
        &&& post.win_length == pre.win_length
        &&& post.player1_id == pre.player1_id
        &&& post.player2_id == pre.player2_id
        &&& post.turn_player == spec_other(pre.turn_player)
        &&& if post.board.wins(column, row, pre.turn_player, pre.win_length as int) {
            &&& post.win_status == Some(pre.turn_player)
            &&& post.winning_chips matches Some(v) && chips_set(v@) == post.board.winning_chips(
                column,
                row,
                pre.turn_player,
                pre.win_length as int,
            )
        } else {
            &&& post.win_status is None
            &&& post.winning_chips is None
        }
    }
}

impl GameData {
    /// A record is well formed when its board is, the board is reachable by
    /// insertions alone, and the winning cells are recorded exactly when a
    /// winner is.
    pub open spec fn wf(self) -> bool {
        &&& self.board.wf()
        &&& self.board.gravity()
        &&& self.winning_chips is Some <==> self.win_status is Some
    }

    /// A fresh record: an empty board, player one to move, no winner.
    pub fn new(
        width: u8,
        height: u8,
        win_length: u8,
        game_id: u64,
        player1_id: u64,
        player2_id: u64,
    ) -> (r: GameData)
        requires
            1 <= width,
            1 <= height,
        ensures
            r.wf(),
            r.game_id == game_id,
            r.board.width == width,
            r.board.height == height,
            r.win_length == win_length,
            r.turn_player == Player::One,
            r.win_status is None,
            r.winning_chips is None,
            r.player1_id == player1_id,
            r.player2_id == player2_id,
            forall|c: int, y: int|
                0 <= c < width as int && 0 <= y < height as int ==> #[trigger] r.board.cell(
                    c,
                    y,
                ) is None,
    {
        GameData {
            game_id,
            board: Board::new(width, height),
            win_length,
            turn_player: Player::One,
            win_status: None,
            winning_chips: None,
            player1_id,
            player2_id,
        }
    }

    /// The identity that must act for the current turn.
    fn turn_player_id(&self) -> (r: u64)
        ensures
            r == spec_turn_player_id(*self),
    {
        match self.turn_player {
            Player::One => self.player1_id,
            Player::Two => self.player2_id,
        }
    }

    /// Passes the turn to the other player.
    pub fn next_turn(&mut self)
        ensures
            final(self).turn_player == spec_other(old(self).turn_player),
            final(self).game_id == old(self).game_id,
            final(self).board == old(self).board,
            final(self).win_length == old(self).win_length,
            final(self).win_status == old(self).win_status,
            final(self).winning_chips == old(self).winning_chips,
            final(self).player1_id == old(self).player1_id,
            final(self).player2_id == old(self).player2_id,
    {
        self.turn_player = match self.turn_player {
            Player::One => Player::Two,
            Player::Two => Player::One,
        };
    }

    /// Plays a piece for the caller presenting `actor_id` into `column`. A
    /// finished game, an identity other than the turn player's, a column
    /// outside the board and a full column reject the move and leave the
    /// record unchanged; otherwise the piece lands on the lowest empty cell,
    /// a win sets the terminal status and records every winning cell, and the
    /// turn passes to the other player either way.
    pub fn apply_move(&mut self, column: usize, actor_id: u64) -> (r: MoveOutcome)
        requires
            old(self).wf(),
        ensures
            final(self).wf(),
            move_transition(*old(self), *final(self), r, column as int, actor_id),
    {
        if self.win_status.is_some() {
            return MoveOutcome::RejectedGameOver;
        }
        if actor_id != self.turn_player_id() {
            return MoveOutcome::RejectedOutOfTurn;
        }
        if column >= self.board.width as usize {
            return MoveOutcome::RejectedOutOfRange;
        }
        let player = self.turn_player;
        let insert = self.board.insert(column, &player);
        match insert {
            Ok(row) => {
                if self.board.check_win(column, row, &player, self.win_length as usize) {
                    self.win_status = Some(player);
                    self.winning_chips = Some(
                        self.board.find_winning_chips(
                            column,
                            row,
                            &player,
                            self.win_length as usize,
                        ),
                    );
                }
                self.next_turn();
                MoveOutcome::Accepted(row)
            },
            Err(_) => MoveOutcome::RejectedFull,
        }
    }

    /// A copy of the record that holds the same game.
    pub fn clone_data(&self) -> (r: GameData)
        ensures
            same_record(r, *self),
    {
        GameData {
            game_id: self.game_id,
            board: clone_board(&self.board),
            win_length: self.win_length,
            turn_player: self.turn_player,
            win_status: self.win_status,
            winning_chips: clone_chips(&self.winning_chips),
            player1_id: self.player1_id,
            player2_id: self.player2_id,
        }
    }
}

/// The states of fetching the shared record from the server.
pub enum FetchGameData {
    NotFetching,
    Fetching,
    Success(GameData),
    Failed,
    InvalidId,
}

/// The events a networked game component reacts to.
pub enum ConnectMsg {
    ColumnClick(usize),
    SetFetchState(FetchGameData),
    Reset,
    GetData,
}

/// The state behind a networked game component: what fetching the shared
/// record last returned, and a cache shown until a fetch succeeds.
pub struct ConnectGame {
    pub fetch_game_data: FetchGameData,
    pub game_data_cache: GameData,
}

impl ConnectGame {
    /// Both the cache and any successfully fetched record are well formed.
    pub open spec fn wf(self) -> bool {
        &&& self.game_data_cache.wf()
        &&& self.fetch_game_data matches FetchGameData::Success(d) ==> d.wf()
    }

    /// Forgets the fetched record and puts a fresh game with the standard
    /// dimensions in the cache, keeping the game and player identities.
    pub fn reset(&mut self)
        requires
            old(self).wf(),
        ensures
            final(self).wf(),
            final(self).fetch_game_data is NotFetching,
            final(self).game_data_cache.game_id == old(self).game_data_cache.game_id,
            final(self).game_data_cache.player1_id == old(self).game_data_cache.player1_id,
            final(self).game_data_cache.player2_id == old(self).game_data_cache.player2_id,
            final(self).game_data_cache.board.width == 7,
            final(self).game_data_cache.board.height == 6,
            final(self).game_data_cache.win_length == 4,
            final(self).game_data_cache.turn_player == Player::One,
            final(self).game_data_cache.win_status is None,
            final(self).game_data_cache.winning_chips is None,
            forall|c: int, y: int|
                0 <= c < 7 && 0 <= y < 6 ==> #[trigger] final(self).game_data_cache.board.cell(
                    c,
                    y,
                ) is None,
    {
        self.fetch_game_data = FetchGameData::NotFetching;
        self.game_data_cache = GameData::new(
            7,
            6,
            4,
            self.game_data_cache.game_id,
            self.game_data_cache.player1_id,
            self.game_data_cache.player2_id,
        );
    }

    /// Records what the latest fetch returned.
    pub fn set_fetch_state(&mut self, state: FetchGameData)
        requires
            old(self).wf(),
            state matches FetchGameData::Success(d) ==> d.wf(),
        ensures
            final(self).wf(),
            final(self).fetch_game_data == state,
            final(self).game_data_cache == old(self).game_data_cache,
    {
        self.fetch_game_data = state;
    }

    /// Decides what a click on `colnr` by the caller presenting `player_id`
    /// does. The first component is the record to save: with no successfully
    /// fetched record, or a rejected move, nothing is to be saved; an
    /// accepted move yields the updated record, which the caller sends to
    /// the server. The second component is what a view layer returns for the
    /// click: false when nothing was fetched, the game is finished or the
    /// caller is not the turn player; true otherwise, even for a move that a
    /// full column rejects.
    pub fn click_column(&self, colnr: usize, player_id: u64) -> (r: (Option<GameData>, bool))
        requires
            self.wf(),
        ensures
            r.1 == match self.fetch_game_data {
                FetchGameData::Success(d) => d.win_status is None && player_id
                    == spec_turn_player_id(d),
                _ => false,
            },
            match self.fetch_game_data {
                FetchGameData::Success(d) => match r.0 {
                    Some(updated) => {
                        &&& updated.wf()
                        &&& exists|row: usize|
                            move_transition(
                                d,
                                updated,
                                MoveOutcome::Accepted(row),
                                colnr as int,
                                player_id,
                            )
                    },
                    None => forall|post: GameData, row: usize|
                        !#[trigger] move_transition(
                            d,
                            post,
                            MoveOutcome::Accepted(row),
                            colnr as int,
                            player_id,
                        ),
                },
                _ => r.0 is None,
            },
    {
        let game_data = match &self.fetch_game_data {
            FetchGameData::Success(data) => data,
            _ => {
                return (None, false);
            },
        };
        let rerender = game_data.win_status.is_none() && player_id == game_data.turn_player_id();
        let ghost d = game_data;
        let mut updated = game_data.clone_data();
        let ghost start = updated;
        proof {
            lemma_same_record_wf(*d, start);
        }
        let outcome = updated.apply_move(colnr, player_id);
        match outcome {
            MoveOutcome::Accepted(row) => {
                proof {
                    lemma_accepted_transfer(
                        *d,
                        start,
                        updated,
                        row,
                        colnr as int,
                        player_id,
                    );
                }
                (Some(updated), rerender)
            },
            _ => {
                proof {
                    lemma_no_accepted_transfer(
                        *d,
                        start,
                        updated,
                        outcome,
                        colnr as int,
                        player_id,
                    );
                }
                (None, rerender)
            },
        }
    }
}

/// A deep copy of a board with the same dimensions and cells.
fn clone_board(b: &Board) -> (r: Board)
    ensures
        r.width == b.width,
        r.height == b.height,
        r.board@.len() == b.board@.len(),
        forall|c: int| 0 <= c < b.board@.len() ==> (#[trigger] r.board@[c])@ == (b.board@[c])@,
{
    let mut grid: Vec<Vec<Option<Player>>> = Vec::new();
    let mut c: usize = 0;
    #[verifier::loop_isolation(false)]
    while c < b.board.len()
        invariant
            c <= b.board@.len(),
            grid@.len() == c as int,
            forall|i: int| 0 <= i < c as int ==> (#[trigger] grid@[i])@ == (b.board@[i])@,
        decreases b.board@.len() - c as int,
    {
        let col = &b.board[c];
        let mut column: Vec<Option<Player>> = Vec::new();
        let mut y: usize = 0;
        #[verifier::loop_isolation(false)]
        while y < col.len()
            invariant
                y <= col@.len(),
                column@.len() == y as int,
                forall|i: int| 0 <= i < y as int ==> #[trigger] column@[i] == col@[i],
            decreases col@.len() - y as int,
        {
            column.push(col[y]);
            y = y + 1;
        }
        proof {
            assert(column@ =~= col@);
        }
        grid.push(column);
        c = c + 1;
    }
    Board { board: grid, width: b.width, height: b.height }
}

/// A copy of the recorded winning cells holding the same list.
fn clone_chips(s: &Option<Vec<(usize, usize)>>) -> (r: Option<Vec<(usize, usize)>>)
    ensures
        match (r, *s) {
            (Some(v1), Some(v2)) => v1@ == v2@,
            (None, None) => true,
            _ => false,
        },
{
    match s {
        Some(v) => {
            let mut out: Vec<(usize, usize)> = Vec::new();
            let mut i: usize = 0;
            #[verifier::loop_isolation(false)]
            while i < v.len()
                invariant
                    i <= v@.len(),
                    out@.len() == i as int,
                    forall|j: int| 0 <= j < i as int ==> #[trigger] out@[j] == v@[j],
                decreases v@.len() - i as int,
            {
                out.push(v[i]);
                i = i + 1;
            }
            proof {
                assert(out@ =~= v@);
            }
            Some(out)
        },
        None => None,
    }
}

/// Records that hold the same game agree cell for cell, and a copy of a
/// well-formed record is well formed.
proof fn lemma_same_record_wf(d: GameData, e: GameData)
    requires
        same_record(e, d),
        d.wf(),
    ensures
        e.wf(),
        forall|c: int, y: int|
            #![trigger e.board.cell(c, y)]
            #![trigger d.board.cell(c, y)]
            0 <= c < d.board.width as int && 0 <= y < d.board.height as int ==> e.board.cell(c, y)
                == d.board.cell(c, y),
        spec_turn_player_id(e) == spec_turn_player_id(d),
{
    assert forall|c: int, y: int|
        #![trigger e.board.cell(c, y)]
        #![trigger d.board.cell(c, y)]
        0 <= c < d.board.width as int && 0 <= y < d.board.height as int implies e.board.cell(c, y)
        == d.board.cell(c, y) by {
        assert((e.board.board@[c])@ == (d.board.board@[c])@);
    }
    assert(e.board.wf());
    assert forall|c: int, r: int|
        0 <= c < e.board.width as int && 1 <= r < e.board.height as int && (
        #[trigger] e.board.cell(c, r)) is Some implies e.board.cell(c, r - 1) is Some by {
        assert(d.board.cell(c, r) == e.board.cell(c, r));
        assert(d.board.cell(c, r - 1) is Some);
    }
    assert(e.board.gravity());
}

/// The move rules read the starting record only through its scalar fields,
/// dimensions and cells, so a copy that holds the same game admits the same
/// accepted moves as the record it copies.
#[verifier::rlimit(60)]
proof fn lemma_accepted_transfer(
    d: GameData,
    e: GameData,
    post: GameData,
    row: usize,
    column: int,
    actor_id: u64,
)
    requires
        d.wf(),
        same_record(e, d),
        0 <= column,
        move_transition(e, post, MoveOutcome::Accepted(row), column, actor_id),
    ensures
        move_transition(d, post, MoveOutcome::Accepted(row), column, actor_id),
{
    lemma_same_record_wf(d, e);
    assert(e.win_status is None);
    assert(actor_id == spec_turn_player_id(e));
    assert(column < e.board.width as int);
    assert(!e.board.column_is_full(column));
    assert(!d.board.column_is_full(column)) by {
        let y = choose|y: int|
            0 <= y < e.board.height as int && !((#[trigger] e.board.cell(column, y)) is Some);
        assert(d.board.cell(column, y) == e.board.cell(column, y));
    }
    lemma_occupied_congruent(d.board, e.board, column, d.board.height as int);
}

/// When a move from a copy of a record was rejected, the record itself admits
/// no accepted move: the rejection reasons depend only on what the two hold
/// in common.
#[verifier::rlimit(60)]
proof fn lemma_no_accepted_transfer(
    d: GameData,
    e: GameData,
    post: GameData,
    r: MoveOutcome,
    column: int,
    actor_id: u64,
)
    requires
        d.wf(),
        same_record(e, d),
        0 <= column,
        move_transition(e, post, r, column, actor_id),
        !(r is Accepted),
    ensures
        forall|q: GameData, row: usize|
            !#[trigger] move_transition(d, q, MoveOutcome::Accepted(row), column, actor_id),
{
    lemma_same_record_wf(d, e);
    assert forall|q: GameData, row: usize|
        !#[trigger] move_transition(d, q, MoveOutcome::Accepted(row), column, actor_id) by {
        if move_transition(d, q, MoveOutcome::Accepted(row), column, actor_id) {
            // an accepted move from `d` means every rejection reason is
            // absent there; the copy shares them all, so its move was
            // accepted too, against the assumption
            assert(!d.board.column_is_full(column));
            let y = choose|y: int|
                0 <= y < d.board.height as int && !((#[trigger] d.board.cell(column, y)) is Some);
            assert(e.board.cell(column, y) == d.board.cell(column, y));
            assert(!e.board.column_is_full(column));
            assert(r is Accepted);
        }
    }
}

} // verus!
