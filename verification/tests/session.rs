use connect_torus::connectgame::{ConnectGame, FetchGameData, GameData};
use connect_torus::gamelist::GameLobby;
use connect_torus::localconnectgame::{LocalGame, Msg};
use connect_torus::{not_found, MoveOutcome, Player};

fn sorted(mut v: Vec<(usize, usize)>) -> Vec<(usize, usize)> {
    v.sort();
    v
}

/// Plays the column sequence on a fresh 7 by 6 local game with win length 4,
/// ending with player one's vertical win in column 0.
fn won_local_game() -> LocalGame {
    let mut g = LocalGame::new(7, 6, 4);
    for col in [0, 1, 0, 1, 0, 1, 0] {
        match g.apply_move(col) {
            MoveOutcome::Accepted(_) => {}
            other => panic!("move into {} was rejected: {:?}", col, other),
        }
    }
    g
}

#[test]
fn local_game_plays_and_alternates() {
    let mut g = LocalGame::new(7, 6, 4);
    assert_eq!(g.turn_player, Player::One);
    assert_eq!(g.apply_move(3), MoveOutcome::Accepted(0));
    assert_eq!(g.turn_player, Player::Two);
    assert_eq!(g.apply_move(3), MoveOutcome::Accepted(1));
    assert_eq!(g.turn_player, Player::One);
    assert_eq!(g.board.board[3][0], Some(Player::One));
    assert_eq!(g.board.board[3][1], Some(Player::Two));
    assert!(g.win_status.is_none());
    assert!(g.winning_chips.is_none());
}

#[test]
fn local_game_rejects_out_of_range_and_full() {
    let mut g = LocalGame::new(7, 6, 4);
    assert_eq!(g.apply_move(7), MoveOutcome::RejectedOutOfRange);
    assert_eq!(g.turn_player, Player::One);
    for i in 0..6 {
        assert_eq!(g.apply_move(2), MoveOutcome::Accepted(i));
    }
    let turn_before = g.turn_player;
    assert_eq!(g.apply_move(2), MoveOutcome::RejectedFull);
    assert_eq!(g.turn_player, turn_before);
}

#[test]
fn local_game_win_sets_status_and_chips() {
    let g = won_local_game();
    assert_eq!(g.win_status, Some(Player::One));
    let chips = g.winning_chips.clone().expect("winning chips recorded");
    assert_eq!(sorted(chips), vec![(0, 0), (0, 1), (0, 2), (0, 3)]);
    // the turn still advances on the winning move
    assert_eq!(g.turn_player, Player::Two);
}

#[test]
fn moves_after_win_leave_everything_unchanged() {
    let mut g = won_local_game();
    let turn = g.turn_player;
    let grid = g.board.board.clone();
    let status = g.win_status.clone();
    for col in 0..7 {
        assert_eq!(g.apply_move(col), MoveOutcome::RejectedGameOver);
    }
    assert_eq!(g.turn_player, turn);
    assert_eq!(g.win_status, status);
    assert_eq!(g.board.board, grid);
}

#[test]
fn reset_clears_everything() {
    let mut g = won_local_game();
    g.reset();
    assert_eq!(g.turn_player, Player::One);
    assert!(g.win_status.is_none());
    assert!(g.winning_chips.is_none());
    assert_eq!(g.board.width, 7);
    assert_eq!(g.board.height, 6);
    assert_eq!(g.win_length, 4);
    for col in &g.board.board {
        assert!(col.iter().all(|c| c.is_none()));
    }
}

#[test]
fn update_game_handles_clicks_and_reset() {
    let mut g = LocalGame::new(7, 6, 4);
    assert!(g.update_game(Msg::ColumnClick(4)));
    assert_eq!(g.board.board[4][0], Some(Player::One));
    assert_eq!(g.turn_player, Player::Two);
    assert!(g.update_game(Msg::Reset));
    assert_eq!(g.turn_player, Player::One);
    assert!(g.board.board[4][0].is_none());
}

#[test]
fn update_game_click_on_finished_game_returns_false() {
    let mut g = won_local_game();
    let grid = g.board.board.clone();
    assert!(!g.update_game(Msg::ColumnClick(3)));
    assert_eq!(g.board.board, grid);
    assert_eq!(g.win_status, Some(Player::One));
    // a reset still reports a change even on a finished game
    assert!(g.update_game(Msg::Reset));
    assert!(g.win_status.is_none());
}

#[test]
fn replace_swaps_the_session() {
    let mut g = LocalGame::new(7, 6, 4);
    let other = LocalGame::new(5, 4, 3);
    g.replace(other);
    assert_eq!(g.board.width, 5);
    assert_eq!(g.board.height, 4);
    assert_eq!(g.win_length, 3);
}

#[test]
fn game_data_enforces_turn_identity() {
    let mut d = GameData::new(7, 6, 4, 99, 11, 22);
    assert_eq!(d.apply_move(0, 22), MoveOutcome::RejectedOutOfTurn);
    assert_eq!(d.turn_player, Player::One);
    assert_eq!(d.apply_move(0, 11), MoveOutcome::Accepted(0));
    assert_eq!(d.turn_player, Player::Two);
    assert_eq!(d.apply_move(0, 11), MoveOutcome::RejectedOutOfTurn);
    assert_eq!(d.apply_move(0, 22), MoveOutcome::Accepted(1));
    assert_eq!(d.game_id, 99);
}

#[test]
fn game_data_next_turn_alternates() {
    let mut d = GameData::new(7, 6, 4, 1, 11, 22);
    assert_eq!(d.turn_player, Player::One);
    d.next_turn();
    assert_eq!(d.turn_player, Player::Two);
    d.next_turn();
    assert_eq!(d.turn_player, Player::One);
}

#[test]
fn click_column_without_fetched_data_does_nothing() {
    let game = ConnectGame {
        fetch_game_data: FetchGameData::NotFetching,
        game_data_cache: GameData::new(7, 6, 4, 1, 11, 22),
    };
    let (saved, rerender) = game.click_column(0, 11);
    assert!(saved.is_none());
    assert!(!rerender);
}

#[test]
fn click_column_saves_an_accepted_move() {
    let game = ConnectGame {
        fetch_game_data: FetchGameData::Success(GameData::new(7, 6, 4, 1, 11, 22)),
        game_data_cache: GameData::new(7, 6, 4, 1, 0, 0),
    };
    // the wrong identity is rejected without a save or a rerender
    let (saved, rerender) = game.click_column(0, 22);
    assert!(saved.is_none());
    assert!(!rerender);
    // the turn player's click produces the updated record to save
    let (saved, rerender) = game.click_column(0, 11);
    let updated = saved.expect("accepted move");
    assert!(rerender);
    assert_eq!(updated.board.board[0][0], Some(Player::One));
    assert_eq!(updated.turn_player, Player::Two);
    assert_eq!(updated.game_id, 1);
}

#[test]
fn click_column_on_a_full_column_saves_nothing_but_rerenders() {
    let mut data = GameData::new(7, 6, 4, 1, 11, 22);
    // fill column 2 with alternating moves; no run of four forms
    for (i, id) in [11, 22, 11, 22, 11, 22].iter().enumerate() {
        assert_eq!(data.apply_move(2, *id), MoveOutcome::Accepted(i));
    }
    assert!(data.win_status.is_none());
    let game = ConnectGame {
        fetch_game_data: FetchGameData::Success(data),
        game_data_cache: GameData::new(7, 6, 4, 1, 0, 0),
    };
    let (saved, rerender) = game.click_column(2, 11);
    assert!(saved.is_none());
    assert!(rerender);
}

#[test]
fn connect_game_reset_recreates_the_cache() {
    let mut game = ConnectGame {
        fetch_game_data: FetchGameData::Failed,
        game_data_cache: GameData::new(9, 9, 5, 7, 11, 22),
    };
    game.reset();
    assert!(matches!(game.fetch_game_data, FetchGameData::NotFetching));
    assert_eq!(game.game_data_cache.board.width, 7);
    assert_eq!(game.game_data_cache.board.height, 6);
    assert_eq!(game.game_data_cache.win_length, 4);
    assert_eq!(game.game_data_cache.game_id, 7);
    assert_eq!(game.game_data_cache.player1_id, 11);
    assert_eq!(game.game_data_cache.player2_id, 22);
}

#[test]
fn player_numeric_forms_round_trip() {
    assert_eq!(u8::from(Player::One), 1);
    assert_eq!(u8::from(Player::Two), 2);
    assert_eq!(Player::try_from(1), Ok(Player::One));
    assert_eq!(Player::try_from(2), Ok(Player::Two));
    assert_eq!(
        Player::try_from(0),
        Err("Invalid player identifier".to_owned())
    );
    assert!(Player::try_from(3).is_err());
}

#[test]
fn not_found_names_the_uri() {
    assert_eq!(not_found("/missing"), "404: Get outta here!\n /missing");
    assert_eq!(not_found(""), "404: Get outta here!\n ");
}

#[test]
fn number_players_joined_counts_seats() {
    let mut lobby = GameLobby {
        game_id: 1,
        player1_id: None,
        player2_id: None,
        game_name: "fresh".to_owned(),
        game_started: false,
    };
    assert_eq!(lobby.number_players_joined(), 0);
    lobby.player1_id = Some(5);
    assert_eq!(lobby.number_players_joined(), 1);
    lobby.player2_id = Some(6);
    assert_eq!(lobby.number_players_joined(), 2);
}
