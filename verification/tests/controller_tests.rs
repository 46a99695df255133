use matchcore::controller::{DisconnectController, SetTileController};
use matchcore::error::ServerError;
use matchcore::frame::{Request, RequestContext, SetTileRequest};
use matchcore::server::Server;

#[test]
fn handle_request_with_user_already_connected_should_be_removed() {
    let mut server = Server::new();
    server.connect(0, String::from("test"), 0).unwrap();
    let controller = DisconnectController::new();
    controller
        .handle_request(&mut server, &Request::Disconnect, RequestContext { client_id: 0 })
        .unwrap();
    assert!(server.players.lookup(0).is_none());
}

#[test]
fn handle_request_with_user_not_exist_should_return_error() {
    let mut server = Server::new();
    let controller = DisconnectController::new();
    assert!(controller
        .handle_request(&mut server, &Request::Disconnect, RequestContext { client_id: 0 })
        .is_err());
}

#[test]
fn handle_request_with_test_user_is_not_his_round_should_return_error() {
    let mut server = Server::new();
    server.connect(0, String::from("test"), 0).unwrap();
    server.connect(1, String::from("test1"), 0).unwrap();
    let lobby = server.create_lobby(0).unwrap();
    server.join_lobby(1, lobby.id).unwrap();
    server.set_ready(0, true).unwrap();
    server.set_ready(1, true).unwrap();
    let game_id = server.start_game(0, lobby.id).unwrap();
    let player_now = server
        .games
        .get_game(game_id)
        .unwrap()
        .get_player_in_this_turn();
    let controller = SetTileController::new();
    let other = match player_now {
        0 => 1,
        1 => 0,
        _ => panic!("invalid test case"),
    };
    assert!(controller
        .handle_request(
            &mut server,
            &Request::SetTile(SetTileRequest { x: 1, y: 1, card_index: 1 }),
            RequestContext { client_id: other },
        )
        .is_err());
}

#[test]
fn handle_request_with_test_user_set_tile_out_of_board_should_return_error() {
    let mut server = Server::new();
    server.connect(0, String::from("test"), 0).unwrap();
    server.create_lobby(0).unwrap();
    server.set_ready(0, true).unwrap();
    let controller = SetTileController::new();
    assert!(controller
        .handle_request(
            &mut server,
            &Request::SetTile(SetTileRequest { x: 27, y: 1, card_index: 1 }),
            RequestContext { client_id: 0 },
        )
        .is_err());
}

#[test]
fn set_tile_by_wrong_turn_player_reports_wrong_turn() {
    let mut server = Server::new();
    server.connect(0, String::from("alice"), 0).unwrap();
    server.connect(1, String::from("bob"), 0).unwrap();
    let lobby = server.create_lobby(0).unwrap();
    server.join_lobby(1, lobby.id).unwrap();
    server.set_ready(0, true).unwrap();
    server.set_ready(1, true).unwrap();
    let game_id = server.start_game(0, lobby.id).unwrap();
    let turn = server
        .games
        .get_game(game_id)
        .unwrap()
        .get_player_in_this_turn();
    let other = if turn == 0 { 1 } else { 0 };
    assert_eq!(server.set_tile(other, 1, 1, 1), Err(ServerError::WrongTurn));
}
