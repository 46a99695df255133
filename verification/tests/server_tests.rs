use matchcore::error::ServerError;
use matchcore::server::Server;

#[test]
fn connect_with_test_user_online_player_map_should_include_test_user() {
    let mut server = Server::new();
    server.connect(0, String::from("test"), 0).unwrap();
    let player = server.players.lookup(0).unwrap();
    assert_eq!(player.id, 0);
    assert_eq!(player.name, String::from("test"));
}

#[test]
fn connect_with_test_user_player_timeout_queue_should_include_test_user() {
    let mut server = Server::new();
    server.connect(0, String::from("test"), 0).unwrap();
    assert!(server.timeouts.contains(0));
}

#[test]
fn connect_with_test_user_who_already_connected_should_return_error() {
    let mut server = Server::new();
    server.connect(0, String::from("test"), 0).unwrap();
    assert!(server.connect(0, String::from("test"), 0).is_err());
}

#[test]
fn disconnect_with_user_already_connected_should_be_removed() {
    let mut server = Server::new();
    server.connect(0, String::from("test"), 0).unwrap();
    server.disconnect(0).unwrap();
    assert!(server.players.len() == 0);
    assert!(server.timeouts.len() == 0);
}

#[test]
fn disconnect_with_user_not_exist_should_return_error() {
    let mut server = Server::new();
    assert!(server.disconnect(0).is_err());
}

#[test]
fn create_lobby_with_test_user_should_create_lobby() {
    let mut server = Server::new();
    server.connect(0, String::from("test"), 0).unwrap();
    server.create_lobby(0).unwrap();
    assert!(server.lobbies.get_lobby(0).is_some());
}

#[test]
fn create_lobby_with_not_exist_user_should_return_error() {
    let mut server = Server::new();
    assert!(server.create_lobby(0).is_err());
}

#[test]
fn create_lobby_with_test_user_should_contains_test_user() {
    let mut server = Server::new();
    server.connect(0, String::from("test"), 0).unwrap();
    server.create_lobby(0).unwrap();
    assert!(server
        .lobbies
        .get_lobby(0)
        .unwrap()
        .get_player(0)
        .is_some());
}

#[test]
fn join_lobby_with_test_user_and_test_lobby_should_join_lobby() {
    let mut server = Server::new();
    server.connect(0, String::from("test"), 0).unwrap();
    let capacity = server.lobby_capacity;
    server.lobbies.create_lobby(capacity);
    server.join_lobby(0, 0).unwrap();
    assert!(server
        .lobbies
        .get_lobby(0)
        .unwrap()
        .get_player(0)
        .is_some());
}

#[test]
fn join_lobby_with_not_exist_user_and_test_lobby_should_return_error() {
    let mut server = Server::new();
    server.connect(0, String::from("test"), 0).unwrap();
    server.create_lobby(0).unwrap();
    assert!(server.join_lobby(1, 0).is_err());
}

#[test]
fn join_lobby_with_test_user_and_not_exist_lobby_should_return_error() {
    let mut server = Server::new();
    server.connect(0, String::from("test"), 0).unwrap();
    assert!(server.join_lobby(0, 0).is_err());
}

#[test]
fn join_lobby_with_not_exist_user_and_not_exist_lobby_should_return_error() {
    let mut server = Server::new();
    assert!(server.join_lobby(0, 0).is_err());
}

#[test]
fn quit_lobby_with_test_user_in_test_lobby_should_quit_lobby() {
    let mut server = Server::new();
    server.connect(0, String::from("test"), 0).unwrap();
    server.create_lobby(0).unwrap();
    server.quit_lobby(0).unwrap();
    // the lobby's last member left, so the registry destroys it eagerly and
    // no lobby can know the player any more
    assert!(server.lobbies.get_lobby(0).is_none());
}

#[test]
fn quit_lobby_with_not_exist_user_should_return_error() {
    let mut server = Server::new();
    assert!(server.quit_lobby(0).is_err());
}

#[test]
fn quit_lobby_with_test_user_but_not_in_lobby_should_return_error() {
    let mut server = Server::new();
    server.connect(0, String::from("test"), 0).unwrap();
    assert!(server.quit_lobby(0).is_err());
}

#[test]
fn join_full_lobby_reports_full() {
    let mut server = Server::new();
    for id in 0..5u32 {
        server.connect(id, format!("p{}", id), 0).unwrap();
    }
    let lobby = server.create_lobby(0).unwrap();
    assert!(server.join_lobby(1, lobby.id).is_ok());
    assert!(server.join_lobby(2, lobby.id).is_ok());
    assert!(server.join_lobby(3, lobby.id).is_ok());
    assert_eq!(server.join_lobby(4, lobby.id), Err(ServerError::Full));
    assert_eq!(
        server.lobbies.get_lobby(lobby.id).unwrap().members.len(),
        4
    );
}

#[test]
fn join_while_in_a_lobby_reports_already_member() {
    let mut server = Server::new();
    server.connect(0, String::from("a"), 0).unwrap();
    server.connect(1, String::from("b"), 0).unwrap();
    server.create_lobby(0).unwrap();
    let second = server.create_lobby(1).unwrap();
    assert_eq!(
        server.join_lobby(0, second.id),
        Err(ServerError::AlreadyMember)
    );
}

#[test]
fn set_ready_outside_a_lobby_reports_not_member() {
    let mut server = Server::new();
    server.connect(0, String::from("a"), 0).unwrap();
    assert_eq!(server.set_ready(0, true), Err(ServerError::NotMember));
}

#[test]
fn join_missing_lobby_reports_lobby_not_found() {
    let mut server = Server::new();
    server.connect(0, String::from("a"), 0).unwrap();
    assert_eq!(server.join_lobby(0, 7), Err(ServerError::LobbyNotFound));
}
