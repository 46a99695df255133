use matchcore::error::ServerError;
use matchcore::frame::{ConnectRequest, Request, Response};
use matchcore::game::STARTING_HAND;
use matchcore::server::Server;
use matchcore::session::{SessionEvent, SessionState, session_transition};

#[test]
fn register_twice_reports_already_connected_and_keeps_the_record() {
    let mut server = Server::new();
    server.connect(7, String::from("alice"), 1).unwrap();
    assert_eq!(
        server.connect(7, String::from("impostor"), 2),
        Err(ServerError::AlreadyConnected)
    );
    let player = server.players.lookup(7).unwrap();
    assert_eq!(player.name, String::from("alice"));
}

#[test]
fn lookup_after_disconnect_reports_nothing() {
    let mut server = Server::new();
    server.connect(3, String::from("carol"), 0).unwrap();
    server.disconnect(3).unwrap();
    assert!(server.players.lookup(3).is_none());
    assert_eq!(server.disconnect(3), Err(ServerError::PlayerNotFound));
}

#[test]
fn memberships_stay_exclusive_across_a_session() {
    let mut server = Server::new();
    server.connect(0, String::from("alice"), 0).unwrap();
    server.connect(1, String::from("bob"), 0).unwrap();
    let lobby = server.create_lobby(0).unwrap();
    server.join_lobby(1, lobby.id).unwrap();
    server.set_ready(0, true).unwrap();
    server.set_ready(1, true).unwrap();
    server.start_game(0, lobby.id).unwrap();
    for id in 0..2u32 {
        let p = server.players.lookup(id).unwrap();
        assert!(!(p.lobby_id.is_some() && p.game_id.is_some()));
        assert!(p.lobby_id.is_none());
        assert!(p.game_id == Some(0));
    }
}

#[test]
fn disconnect_of_sole_member_destroys_the_lobby() {
    let mut server = Server::new();
    server.connect(0, String::from("alice"), 0).unwrap();
    let lobby = server.create_lobby(0).unwrap();
    server.disconnect(0).unwrap();
    assert!(server.lobbies.get_lobby(lobby.id).is_none());
}

#[test]
fn heartbeat_moves_an_entry_behind_all_untouched_ones() {
    let mut server = Server::new();
    server.connect(1, String::from("a"), 5).unwrap();
    server.connect(2, String::from("b"), 3).unwrap();
    server.connect(3, String::from("c"), 8).unwrap();
    // identity 2 is the stalest entry until its heartbeat refreshes it
    assert_eq!(server.timeouts.peek_earliest(), Some((2, 3)));
    server.heartbeat(2, 20).unwrap();
    assert_eq!(server.timeouts.peek_earliest(), Some((1, 5)));
}

#[test]
fn sweep_evicts_exactly_the_overdue_earliest_entry() {
    let mut server = Server::new();
    server.connect(1, String::from("a"), 5).unwrap();
    server.connect(2, String::from("b"), 90).unwrap();
    assert_eq!(server.sweep_step(100, 50), Some(1));
    assert!(server.players.lookup(1).is_none());
    assert!(server.players.lookup(2).is_some());
    // the remaining entry is fresh enough, so the next step evicts nobody
    assert_eq!(server.sweep_step(100, 50), None);
}

#[test]
fn five_joiners_fill_a_lobby_of_four_and_the_rest_get_full() {
    let mut server = Server::new();
    for id in 0..5u32 {
        server.connect(id, format!("p{}", id), 0).unwrap();
    }
    let lobby = server.create_lobby(0).unwrap();
    let mut admitted = 1; // the creator
    let mut full = 0;
    for id in 1..5u32 {
        match server.join_lobby(id, lobby.id) {
            Ok(_) => admitted += 1,
            Err(e) => {
                assert_eq!(e, ServerError::Full);
                full += 1;
            }
        }
    }
    assert_eq!(admitted, 4);
    assert_eq!(full, 1);
}

#[test]
fn game_scenario_rejects_wrong_turn_and_out_of_bounds() {
    let mut server = Server::new();
    server.connect(0, String::from("alice"), 0).unwrap();
    server.connect(1, String::from("bob"), 0).unwrap();
    let lobby = server.create_lobby(0).unwrap();
    server.join_lobby(1, lobby.id).unwrap();
    server.set_ready(0, true).unwrap();
    server.set_ready(1, true).unwrap();
    let game_id = server.start_game(0, lobby.id).unwrap();
    let turn = server
        .games
        .get_game(game_id)
        .unwrap()
        .get_player_in_this_turn();
    let other = if turn == 0 { 1 } else { 0 };
    assert_eq!(server.set_tile(other, 1, 1, 1), Err(ServerError::WrongTurn));
    assert_eq!(
        server.set_tile(turn, 27, 1, 1),
        Err(ServerError::OutOfBounds)
    );
}

#[test]
fn disconnect_of_never_connected_identity_reports_not_found() {
    let mut server = Server::new();
    assert_eq!(server.disconnect(0), Err(ServerError::PlayerNotFound));
}

#[test]
fn successful_placement_consumes_a_card_and_passes_the_turn() {
    let mut server = Server::new();
    server.connect(0, String::from("alice"), 0).unwrap();
    server.connect(1, String::from("bob"), 0).unwrap();
    let lobby = server.create_lobby(0).unwrap();
    server.join_lobby(1, lobby.id).unwrap();
    server.set_ready(0, true).unwrap();
    server.set_ready(1, true).unwrap();
    let game_id = server.start_game(0, lobby.id).unwrap();
    // the creator joined first, so the turn marker starts on identity 0
    assert_eq!(
        server.games.get_game(game_id).unwrap().get_player_in_this_turn(),
        0
    );
    server.set_tile(0, 1, 1, 0).unwrap();
    let game = server.games.get_game(game_id).unwrap();
    assert_eq!(game.get_player(0).unwrap().cards, STARTING_HAND - 1);
    assert_eq!(game.get_player_in_this_turn(), 1);
    assert_eq!(server.set_tile(0, 1, 1, 0), Err(ServerError::WrongTurn));
    server.set_tile(1, 2, 2, 0).unwrap();
}

#[test]
fn start_game_guards_membership_readiness_and_size() {
    let mut server = Server::new();
    server.connect(0, String::from("alice"), 0).unwrap();
    server.connect(1, String::from("bob"), 0).unwrap();
    server.connect(2, String::from("carol"), 0).unwrap();
    let lobby = server.create_lobby(0).unwrap();
    assert_eq!(
        server.start_game(0, lobby.id),
        Err(ServerError::InsufficientPlayers)
    );
    server.join_lobby(1, lobby.id).unwrap();
    assert_eq!(server.start_game(0, lobby.id), Err(ServerError::NotAllReady));
    assert_eq!(server.start_game(2, lobby.id), Err(ServerError::NotMember));
    assert_eq!(server.start_game(0, 9), Err(ServerError::LobbyNotFound));
    assert_eq!(server.start_game(9, lobby.id), Err(ServerError::PlayerNotFound));
    server.set_ready(0, true).unwrap();
    server.set_ready(1, true).unwrap();
    assert_eq!(server.start_game(0, lobby.id), Ok(0));
    assert!(server.lobbies.get_lobby(lobby.id).is_none());
}

#[test]
fn set_tile_card_and_game_errors_are_exact() {
    let mut server = Server::new();
    server.connect(0, String::from("alice"), 0).unwrap();
    assert_eq!(server.set_tile(0, 1, 1, 0), Err(ServerError::GameNotFound));
    server.connect(1, String::from("bob"), 0).unwrap();
    let lobby = server.create_lobby(0).unwrap();
    server.join_lobby(1, lobby.id).unwrap();
    server.set_ready(0, true).unwrap();
    server.set_ready(1, true).unwrap();
    server.start_game(0, lobby.id).unwrap();
    assert_eq!(server.set_tile(0, 1, 1, 200), Err(ServerError::InvalidCard));
    assert_eq!(server.set_tile(9, 1, 1, 0), Err(ServerError::PlayerNotFound));
}

#[test]
fn dispatcher_always_answers_with_the_matching_response_kind() {
    let mut server = Server::new();
    let resp = server.handle_request(
        0,
        Request::Connect(ConnectRequest { name: String::from("alice") }),
        0,
    );
    assert!(matches!(resp, Response::Connect(cr) if cr.success));
    let resp = server.handle_request(
        0,
        Request::Connect(ConnectRequest { name: String::from("alice") }),
        0,
    );
    assert!(matches!(resp, Response::Connect(cr) if !cr.success));
    let resp = server.handle_request(0, Request::CreateLobby, 0);
    match resp {
        Response::CreateLobby(cr) => {
            assert!(cr.success);
            let info = cr.lobby.unwrap();
            assert_eq!(info.id, 0);
            assert_eq!(info.players, vec![0]);
        }
        _ => panic!("wrong response kind"),
    }
    let resp = server.handle_request(0, Request::Heartbeat, 9);
    assert!(matches!(resp, Response::Heartbeat(hr) if hr.success));
    let resp = server.handle_request(0, Request::QuitLobby, 9);
    assert!(matches!(resp, Response::QuitLobby(qr) if qr.success));
    let resp = server.handle_request(0, Request::Disconnect, 9);
    assert!(matches!(resp, Response::Disconnect(dr) if dr.success));
    let resp = server.handle_request(0, Request::Heartbeat, 10);
    assert!(matches!(resp, Response::Heartbeat(hr) if !hr.success));
}

#[test]
fn session_lifecycle_follows_the_expected_states() {
    let s = SessionState::Connecting;
    let s = session_transition(s, SessionEvent::ConnectAccepted);
    assert_eq!(s, SessionState::Active);
    let s = session_transition(s, SessionEvent::DisconnectRequested);
    assert_eq!(s, SessionState::Closing);
    let s = session_transition(s, SessionEvent::TeardownComplete);
    assert_eq!(s, SessionState::Closed);
    assert_eq!(
        session_transition(s, SessionEvent::ConnectAccepted),
        SessionState::Closed
    );
    assert_eq!(
        session_transition(SessionState::Connecting, SessionEvent::TransportFailed),
        SessionState::Closing
    );
}

#[test]
fn untracked_heartbeat_reports_not_found() {
    let mut server = Server::new();
    assert_eq!(server.heartbeat(5, 1), Err(ServerError::PlayerNotFound));
    server.connect(5, String::from("a"), 1).unwrap();
    assert!(server.heartbeat(5, 2).is_ok());
    server.disconnect(5).unwrap();
    assert_eq!(server.heartbeat(5, 3), Err(ServerError::PlayerNotFound));
}

#[test]
fn full_sweep_leaves_no_overdue_identity() {
    let mut server = Server::new();
    server.connect(1, String::from("a"), 5).unwrap();
    server.connect(2, String::from("b"), 7).unwrap();
    server.connect(3, String::from("c"), 95).unwrap();
    let evicted = server.sweep_all(100, 50);
    assert_eq!(evicted, vec![1, 2]);
    assert!(server.players.lookup(1).is_none());
    assert!(server.players.lookup(2).is_none());
    assert!(server.players.lookup(3).is_some());
    assert_eq!(server.timeouts.len(), 1);
}
