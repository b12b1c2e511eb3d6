//! Lobby lifecycle scenarios: create, discover, join, invite, leave,
//! delete, and the one-lobby-per-player rule.

use matchbox_server::errors::ApiError;
use matchbox_server::lobby::LobbyStatus;
use matchbox_server::state::ServerState;

fn player(name: &str) -> String {
    name.to_string()
}

#[test]
fn test_public_lobby_flow() {
    let mut st = ServerState::default();
    let a = player("pubkey_a_aaaaaaaaaaaaaaaaaaaaaaaaaaaaaaaaaaaaaaaa");
    let b = player("pubkey_b_bbbbbbbbbbbbbbbbbbbbbbbbbbbbbbbbbbbbbbbb");

    let lobby = st.create_lobby(a.clone(), false, None).unwrap();

    // The owner sees their own lobby.
    let seen_by_a = st.list_lobbies(Some(a.clone()));
    assert_eq!(seen_by_a.len(), 1);
    assert_eq!(seen_by_a[0].id, lobby.id);

    // An unrelated player sees the public waiting lobby too.
    let seen_by_b = st.list_lobbies(Some(b.clone()));
    assert_eq!(seen_by_b.len(), 1);
    assert_eq!(seen_by_b[0].id, lobby.id);

    // And may join it.
    assert!(st.join_lobby(lobby.id, b.clone()).is_ok());
}

#[test]
fn test_private_lobby_flow() {
    let mut st = ServerState::default();
    let owner = player("owner_private");
    let other = player("other_private");

    let lobby = st.create_lobby(owner.clone(), true, None).unwrap();
    assert!(lobby.is_private);

    // A private lobby is invisible to strangers...
    let seen_by_other = st.list_lobbies(Some(other.clone()));
    assert_eq!(seen_by_other.len(), 0);

    // ...but the owner still sees it.
    let seen_by_owner = st.list_lobbies(Some(owner.clone()));
    assert_eq!(seen_by_owner.len(), 1);
}

#[test]
fn test_owner_sees_private_lobby_discovery() {
    let mut st = ServerState::default();
    let owner = player("owner_disc");
    let intruder = player("intruder_disc");

    let lobby = st
        .create_lobby(owner.clone(), true, Some(vec![player("friend_disc")]))
        .unwrap();

    let owner_lobbies = st.list_lobbies(Some(owner.clone()));
    assert!(!owner_lobbies.is_empty());

    let intruder_lobbies = st.list_lobbies(Some(intruder.clone()));
    assert_eq!(intruder_lobbies.len(), 0);

    let err = st.join_lobby(lobby.id, intruder.clone()).unwrap_err();
    assert_eq!(err.status_code(), 403);
}

#[test]
fn test_whitelisted_player_discovery() {
    let mut st = ServerState::default();
    let owner = player("owner_wld");
    let invited = player("invited_wld");
    let other = player("other_wld");

    let lobby = st
        .create_lobby(owner.clone(), true, Some(vec![invited.clone()]))
        .unwrap();

    // The whitelisted player discovers the private lobby.
    let seen_by_invited = st.list_lobbies(Some(invited.clone()));
    assert_eq!(seen_by_invited.len(), 1);

    // A non-whitelisted player sees nothing and cannot join.
    let seen_by_other = st.list_lobbies(Some(other.clone()));
    assert_eq!(seen_by_other.len(), 0);
    let err = st.join_lobby(lobby.id, other.clone()).unwrap_err();
    assert_eq!(err.status_code(), 403);
}

#[test]
fn test_whitelist_allows_whitelisted_player() {
    let mut st = ServerState::default();
    let owner = player("owner_wla");
    let invited = player("invited_wla");

    let lobby = st
        .create_lobby(owner.clone(), true, Some(vec![invited.clone()]))
        .unwrap();

    let seen_by_invited = st.list_lobbies(Some(invited.clone()));
    assert_eq!(seen_by_invited.len(), 1);
    assert_eq!(seen_by_invited[0].id, lobby.id);

    assert!(st.join_lobby(lobby.id, invited.clone()).is_ok());
}

#[test]
fn test_whitelist_blocks_non_whitelisted_player() {
    let mut st = ServerState::default();
    let owner = player("owner_wlb");
    let invited = player("invited_wlb");
    let blocked = player("blocked_wlb");

    let lobby = st
        .create_lobby(owner.clone(), true, Some(vec![invited.clone()]))
        .unwrap();

    let err = st.join_lobby(lobby.id, blocked.clone()).unwrap_err();
    assert_eq!(err.status_code(), 403);
    assert_eq!(err, ApiError::NotInWhitelist);
}

#[test]
fn test_whitelist_multiple_players() {
    let mut st = ServerState::default();
    let owner = player("owner_wlm");
    let one = player("one_wlm");
    let two = player("two_wlm");
    let outsider = player("outsider_wlm");

    let lobby = st
        .create_lobby(owner.clone(), true, Some(vec![one.clone(), two.clone()]))
        .unwrap();

    assert!(st.join_lobby(lobby.id, one.clone()).is_ok());
    assert!(st.join_lobby(lobby.id, two.clone()).is_ok());
    let err = st.join_lobby(lobby.id, outsider.clone()).unwrap_err();
    assert_eq!(err.status_code(), 403);
}

#[test]
fn test_lobby_without_whitelist_allows_all_players() {
    let mut st = ServerState::default();
    let owner = player("owner_nwl");
    let anyone = player("anyone_nwl");

    let lobby = st.create_lobby(owner.clone(), false, None).unwrap();
    assert!(st.join_lobby(lobby.id, anyone.clone()).is_ok());
}

#[test]
fn test_delete_lobby() {
    let mut st = ServerState::default();
    let owner = player("owner_del");

    let lobby = st.create_lobby(owner.clone(), false, None).unwrap();
    let lobbies = st.list_lobbies(Some(owner.clone()));
    assert_eq!(lobbies.len(), 1);
    assert_eq!(lobbies[0].id, lobby.id);

    assert!(st.delete_lobby(lobby.id, &owner).is_ok());
    let lobbies = st.list_lobbies(Some(owner.clone()));
    assert_eq!(lobbies.len(), 0);

    // Deleting again: the lobby is gone.
    let err = st.delete_lobby(lobby.id, &owner).unwrap_err();
    assert_eq!(err.status_code(), 404);
}

#[test]
fn test_delete_lobby_with_multiple_players() {
    let mut st = ServerState::default();
    let a = player("owner_delm");
    let b = player("member_delm");

    let lobby = st.create_lobby(a.clone(), false, None).unwrap();
    assert!(st.join_lobby(lobby.id, b.clone()).is_ok());

    assert_eq!(st.list_lobbies(Some(a.clone())).len(), 1);
    assert_eq!(st.list_lobbies(Some(b.clone())).len(), 1);

    // Owner deletes: both players see no lobby any more.
    assert!(st.delete_lobby(lobby.id, &a).is_ok());
    assert_eq!(st.list_lobbies(Some(a.clone())).len(), 0);
    assert_eq!(st.list_lobbies(Some(b.clone())).len(), 0);
}

#[test]
fn test_player_can_leave_lobby() {
    let mut st = ServerState::default();
    let a = player("owner_leave");
    let b = player("member_leave");

    let lobby = st.create_lobby(a.clone(), false, None).unwrap();
    assert!(st.join_lobby(lobby.id, b.clone()).is_ok());

    let lobbies = st.list_lobbies(Some(a.clone()));
    assert_eq!(lobbies.len(), 1);
    assert_eq!(lobbies[0].players.len(), 2);

    // The member leaves through the same DELETE endpoint.
    assert!(st.delete_lobby(lobby.id, &b).is_ok());

    let lobbies = st.list_lobbies(Some(a.clone()));
    assert_eq!(lobbies.len(), 1); // the lobby still exists
    assert_eq!(lobbies[0].players.len(), 1); // only the owner is left
}

#[test]
fn test_owner_deletes_lobby_completely() {
    let mut st = ServerState::default();
    let a = player("owner_delc");
    let b = player("member_delc");

    let lobby = st.create_lobby(a.clone(), false, None).unwrap();
    assert!(st.join_lobby(lobby.id, b.clone()).is_ok());

    assert!(st.delete_lobby(lobby.id, &a).is_ok());

    assert_eq!(st.list_lobbies(Some(a.clone())).len(), 0);
    assert_eq!(st.list_lobbies(Some(b.clone())).len(), 0);
    // Both are free to create or join again.
    assert!(st.create_lobby(b.clone(), false, None).is_ok());
}

#[test]
fn test_cannot_create_multiple_lobbies() {
    let mut st = ServerState::default();
    let a = player("owner_multi");

    assert!(st.create_lobby(a.clone(), false, None).is_ok());
    let err = st.create_lobby(a.clone(), false, None).unwrap_err();
    assert_eq!(err.status_code(), 409);
    assert_eq!(err, ApiError::AlreadyInLobby);
}

#[test]
fn test_cannot_join_multiple_lobbies() {
    let mut st = ServerState::default();
    let a = player("player_a_join2");
    let b = player("player_b_join2");

    let l1 = st.create_lobby(a.clone(), false, None).unwrap();
    let l2 = st.create_lobby(b.clone(), false, None).unwrap();
    assert_ne!(l1.id, l2.id);

    let err = st.join_lobby(l2.id, a.clone()).unwrap_err();
    assert_eq!(err.status_code(), 409);
}

#[test]
fn test_can_rejoin_same_lobby() {
    let mut st = ServerState::default();
    let a = player("owner_rejoin");
    let b = player("member_rejoin");

    let lobby = st.create_lobby(a.clone(), false, None).unwrap();
    assert!(st.join_lobby(lobby.id, b.clone()).is_ok());
    // Rejoining the same lobby is idempotent.
    assert!(st.join_lobby(lobby.id, b.clone()).is_ok());
    let lobbies = st.list_lobbies(Some(a.clone()));
    assert_eq!(lobbies[0].players.len(), 2);
}

#[test]
fn test_invite_friends_to_private_lobby() {
    let mut st = ServerState::default();
    let owner = player("owner_invite");
    let friend = player("friend_invite");

    let lobby = st.create_lobby(owner.clone(), true, None).unwrap();

    // Before the invite the friend sees nothing.
    assert_eq!(st.list_lobbies(Some(friend.clone())).len(), 0);

    assert!(st.invite_to_lobby(lobby.id, &owner, vec![friend.clone()]).is_ok());

    // After the invite the friend discovers the lobby and may join.
    let lobbies = st.list_lobbies(Some(friend.clone()));
    assert_eq!(lobbies.len(), 1);
    assert_eq!(lobbies[0].id, lobby.id);
    assert!(st.join_lobby(lobby.id, friend.clone()).is_ok());
}

#[test]
fn test_only_owner_can_invite() {
    let mut st = ServerState::default();
    let owner = player("owner_onlyinv");
    let member = player("member_onlyinv");
    let friend = player("friend_onlyinv");

    let lobby = st.create_lobby(owner.clone(), false, None).unwrap();
    assert!(st.join_lobby(lobby.id, member.clone()).is_ok());

    let err = st
        .invite_to_lobby(lobby.id, &member, vec![friend.clone()])
        .unwrap_err();
    assert_eq!(err.status_code(), 403);
    assert_eq!(err, ApiError::NotOwner);
}

#[test]
fn created_lobby_starts_waiting_with_owner() {
    let mut st = ServerState::default();
    let owner = player("owner_shape");
    let lobby = st
        .create_lobby(owner.clone(), true, Some(vec![player("x"), player("x")]))
        .unwrap();
    assert_eq!(lobby.owner, owner);
    assert_eq!(lobby.players, vec![owner.clone()]);
    assert!(matches!(lobby.status, LobbyStatus::Waiting));
    // The whitelist keeps each invited identity once.
    assert_eq!(lobby.whitelist.as_ref().unwrap().len(), 1);
}

#[test]
fn join_unknown_lobby_is_not_found() {
    let mut st = ServerState::default();
    let err = st.join_lobby(12345, player("nobody")).unwrap_err();
    assert_eq!(err, ApiError::LobbyNotFound);
    assert_eq!(err.status_code(), 404);
}

#[test]
fn invite_to_unknown_lobby_is_not_found() {
    let mut st = ServerState::default();
    let err = st
        .invite_to_lobby(777, &player("anyone"), vec![player("x")])
        .unwrap_err();
    assert_eq!(err, ApiError::LobbyNotFound);
}

#[test]
fn leave_without_membership_changes_nothing() {
    let mut st = ServerState::default();
    let owner = player("owner_nomem");
    let stranger = player("stranger_nomem");
    let lobby = st.create_lobby(owner.clone(), false, None).unwrap();
    // A stranger's "leave" is accepted and leaves the lobby untouched.
    assert!(st.delete_lobby(lobby.id, &stranger).is_ok());
    let lobbies = st.list_lobbies(None);
    assert_eq!(lobbies.len(), 1);
    assert_eq!(lobbies[0].players.len(), 1);
}

#[test]
fn anonymous_viewer_sees_only_waiting_public_lobbies() {
    let mut st = ServerState::default();
    let a = player("owner_anon_pub");
    let b = player("owner_anon_priv");
    st.create_lobby(a.clone(), false, None).unwrap();
    st.create_lobby(b.clone(), true, None).unwrap();
    let lobbies = st.list_lobbies(None);
    assert_eq!(lobbies.len(), 1);
    assert!(!lobbies[0].is_private);
}

#[test]
fn status_codes_follow_the_error_taxonomy() {
    assert_eq!(ApiError::InvalidChallenge.status_code(), 401);
    assert_eq!(ApiError::InvalidSignature.status_code(), 401);
    assert_eq!(ApiError::InvalidToken.status_code(), 401);
    assert_eq!(ApiError::NotInWhitelist.status_code(), 403);
    assert_eq!(ApiError::NotOwner.status_code(), 403);
    assert_eq!(ApiError::AlreadyInLobby.status_code(), 409);
    assert_eq!(ApiError::LobbyNotFound.status_code(), 404);
    assert_eq!(ApiError::InternalIssueFailed.status_code(), 500);
}

#[test]
fn whitelist_removal_revokes_access() {
    let mut st = ServerState::default();
    let owner = player("owner_wrm");
    let friend = player("friend_wrm");
    let lobby = st
        .create_lobby(owner.clone(), true, Some(vec![friend.clone()]))
        .unwrap();
    assert!(st
        .lobby_manager
        .remove_from_whitelist(lobby.id, &friend)
        .is_ok());
    let err = st.join_lobby(lobby.id, friend.clone()).unwrap_err();
    assert_eq!(err, ApiError::NotInWhitelist);
}

#[test]
fn invite_creates_a_whitelist_that_then_gates_joins() {
    let mut st = ServerState::default();
    let owner = player("owner_gate");
    let friend = player("friend_gate");
    let stranger = player("stranger_gate");
    let lobby = st.create_lobby(owner.clone(), false, None).unwrap();
    assert!(lobby.whitelist.is_none());

    assert!(st.invite_to_lobby(lobby.id, &owner, vec![friend.clone()]).is_ok());

    // Once a whitelist exists, it gates joins even on a public lobby.
    let err = st.join_lobby(lobby.id, stranger.clone()).unwrap_err();
    assert_eq!(err, ApiError::NotInWhitelist);
    assert!(st.join_lobby(lobby.id, friend.clone()).is_ok());
}

#[test]
fn remove_player_clears_membership_but_never_unseats_the_owner() {
    let mut st = ServerState::default();
    let owner = player("owner_rp");
    let member = player("member_rp");
    let lobby = st.create_lobby(owner.clone(), false, None).unwrap();
    st.join_lobby(lobby.id, member.clone()).unwrap();

    st.remove_player(&member);
    let lobbies = st.list_lobbies(Some(owner.clone()));
    assert_eq!(lobbies[0].players, vec![owner.clone()]);

    // The owner holds the lobby; only a delete dissolves it.
    st.remove_player(&owner);
    let lobbies = st.list_lobbies(Some(owner.clone()));
    assert_eq!(lobbies.len(), 1);
    assert_eq!(lobbies[0].players, vec![owner.clone()]);
}
