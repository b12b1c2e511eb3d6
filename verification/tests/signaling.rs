//! The per-socket session machine: upgrade authorization, peer-handle
//! correlation, enrollment, relay, and teardown.

use matchbox_server::auth::{issue_jwt_at, AuthSecret};
use matchbox_server::lobby::LobbyStatus;
use matchbox_server::state::ServerState;
use matchbox_server::topology::{
    frame_error_continues, relay_request, FrameError, PeerEventMsg, PeerRequestMsg,
};

fn secret() -> AuthSecret {
    AuthSecret("test-secret-key-for-development-only".to_string())
}

fn token_for(player: &str) -> String {
    issue_jwt_at(&player.to_string(), &"someone".to_string(), &secret(), 1000).unwrap()
}

/// Runs the upgrade-and-correlate steps for one socket.
fn connect(st: &mut ServerState, player: &str, origin: &str, handle: u128) {
    let token = token_for(player);
    st.authorize_connection(origin.to_string(), &token, &secret(), 2000)
        .unwrap();
    let assigned = st.assign_peer(&origin.to_string(), handle).unwrap();
    assert_eq!(assigned, player);
}

fn lobby_status(st: &ServerState, lobby_id: u128) -> LobbyStatus {
    st.lobby_manager.get_lobby(lobby_id).unwrap().status
}

#[test]
fn test_websocket_connection_with_token_in_path() {
    let mut st = ServerState::default();
    let a = "owner_ws".to_string();
    let lobby = st.create_lobby(a.clone(), false, None).unwrap();

    connect(&mut st, &a, "127.0.0.1:40001", 11);
    let plan = st.peer_connected(11).unwrap();
    assert_eq!(plan.player, a);
    assert_eq!(plan.lobby_id, lobby.id);
    // The owner's connection starts the game.
    assert!(plan.started);
    assert!(matches!(lobby_status(&st, lobby.id), LobbyStatus::InProgress));
    // Nobody else is connected yet.
    assert!(plan.notify.is_empty());
}

#[test]
fn test_websocket_connection_without_token_fails() {
    let mut st = ServerState::default();
    let r = st.authorize_connection("127.0.0.1:40002".to_string(), "", &secret(), 2000);
    assert!(r.is_err());
}

#[test]
fn test_websocket_connection_with_invalid_token_fails() {
    let mut st = ServerState::default();
    let r = st.authorize_connection(
        "127.0.0.1:40003".to_string(),
        "invalidtoken",
        &secret(),
        2000,
    );
    assert!(r.is_err());
}

#[test]
fn test_websocket_connection_without_joining_lobby_fails() {
    let mut st = ServerState::default();
    // A valid identity that belongs to no lobby: the socket is
    // accepted and assigned, but correlation to a lobby fails and the
    // session ends without side effects.
    connect(&mut st, "lobbyless_player", "127.0.0.1:40004", 21);
    assert!(st.peer_connected(21).is_none());
}

#[test]
fn test_two_players_connect_to_same_lobby() {
    let mut st = ServerState::default();
    let a = "owner_two".to_string();
    let b = "member_two".to_string();
    let lobby = st.create_lobby(a.clone(), false, None).unwrap();
    st.join_lobby(lobby.id, b.clone()).unwrap();

    // A connects: the lobby starts.
    connect(&mut st, &a, "127.0.0.1:40005", 31);
    let plan_a = st.peer_connected(31).unwrap();
    assert!(plan_a.started);
    assert!(plan_a.notify.is_empty());
    assert!(matches!(lobby_status(&st, lobby.id), LobbyStatus::InProgress));

    // B connects: A is told about the new peer.
    connect(&mut st, &b, "127.0.0.1:40006", 32);
    let plan_b = st.peer_connected(32).unwrap();
    assert!(!plan_b.started);
    assert_eq!(plan_b.notify, vec![31]);

    // B closes: A is told, the lobby stays in progress.
    let down_b = st.peer_disconnected(32, &b, lobby.id);
    assert!(!down_b.ended);
    assert_eq!(down_b.notify, vec![31]);
    assert!(matches!(lobby_status(&st, lobby.id), LobbyStatus::InProgress));

    // A closes last: the lobby returns to Waiting.
    let down_a = st.peer_disconnected(31, &a, lobby.id);
    assert!(down_a.ended);
    assert!(down_a.notify.is_empty());
    assert!(matches!(lobby_status(&st, lobby.id), LobbyStatus::Waiting));

    // Memberships persisted across the disconnects: both can reconnect.
    let lobbies = st.list_lobbies(Some(a.clone()));
    assert_eq!(lobbies.len(), 1);
    assert_eq!(lobbies[0].players.len(), 2);
    connect(&mut st, &b, "127.0.0.1:40007", 33);
    assert!(st.peer_connected(33).is_some());
}

#[test]
fn join_is_refused_while_the_game_runs() {
    let mut st = ServerState::default();
    let a = "owner_running".to_string();
    let c = "latecomer_running".to_string();
    let lobby = st.create_lobby(a.clone(), false, None).unwrap();

    connect(&mut st, &a, "127.0.0.1:40008", 41);
    st.peer_connected(41).unwrap();
    assert!(matches!(lobby_status(&st, lobby.id), LobbyStatus::InProgress));

    // To a joiner, a started lobby looks like an absent one.
    let err = st.join_lobby(lobby.id, c.clone()).unwrap_err();
    assert_eq!(err.status_code(), 404);

    // Once the game ends, joining works again.
    let down = st.peer_disconnected(41, &a, lobby.id);
    assert!(down.ended);
    assert!(st.join_lobby(lobby.id, c.clone()).is_ok());
}

#[test]
fn relay_restamps_signals_and_drops_keepalives() {
    let cmd = relay_request(
        7,
        PeerRequestMsg::Signal { receiver: 9, data: "offer-sdp".to_string() },
    )
    .unwrap();
    assert_eq!(cmd.to, 9);
    match cmd.event {
        PeerEventMsg::Signal { sender, data } => {
            assert_eq!(sender, 7);
            assert_eq!(data, "offer-sdp");
        }
        _ => panic!("a signal must relay as a signal"),
    }
    assert!(relay_request(7, PeerRequestMsg::KeepAlive).is_none());
}

#[test]
fn recoverable_frame_errors_keep_the_session_alive() {
    assert!(frame_error_continues(&FrameError::Json));
    assert!(frame_error_continues(&FrameError::UnsupportedType));
    assert!(!frame_error_continues(&FrameError::Transport));
    assert!(!frame_error_continues(&FrameError::Close));
}

#[test]
fn expired_token_is_refused_on_upgrade() {
    let mut st = ServerState::default();
    let token = token_for("late_player");
    // The token from `token_for` expires 24 h after second 1000.
    let r = st.authorize_connection(
        "127.0.0.1:40009".to_string(),
        &token,
        &secret(),
        1000 + 86400,
    );
    assert!(r.is_err());
}

#[test]
fn assignment_without_authorization_is_discarded() {
    let mut st = ServerState::default();
    assert!(st.assign_peer(&"127.0.0.1:40010".to_string(), 51).is_none());
}

#[test]
fn reconnect_replaces_the_players_handle() {
    let mut st = ServerState::default();
    let a = "owner_re".to_string();
    let lobby = st.create_lobby(a.clone(), false, None).unwrap();

    connect(&mut st, &a, "127.0.0.1:40011", 61);
    st.peer_connected(61).unwrap();
    // The player reconnects on a new socket before the old one drained.
    connect(&mut st, &a, "127.0.0.1:40012", 62);
    let plan = st.peer_connected(62).unwrap();
    assert_eq!(plan.lobby_id, lobby.id);
    // The old handle no longer correlates to anyone.
    assert!(st.correlate(61).is_none());
    assert!(st.correlate(62).is_some());
}

#[test]
fn disconnect_keeps_membership_but_drops_the_connection() {
    let mut st = ServerState::default();
    let a = "owner_keep".to_string();
    st.create_lobby(a.clone(), false, None).unwrap();
    connect(&mut st, &a, "127.0.0.1:40013", 71);
    st.peer_connected(71).unwrap();

    st.remove_connection_only(&a);
    assert!(st.correlate(71).is_none());
    let lobbies = st.list_lobbies(Some(a.clone()));
    assert_eq!(lobbies.len(), 1);
    assert_eq!(lobbies[0].players, vec![a.clone()]);
}
