//! The per-socket signaling session machine.
//!
//! A socket is authorized on upgrade, correlated with its player once
//! the transport assigns it a peer handle, enrolled into its lobby's
//! broadcast set, then relays frames until it drains. The decisions of
//! each step live here; the transport performs the sends and hands
//! events back.

use vstd::prelude::*;

use crate::auth::AuthSecret;
use crate::index::{key_in, pair_in, skey_in, spair_in, val_in};
use crate::lobby::{LobbyStatus, PlayerId};
use crate::state::{
    has_lobby, idx_of, lemma_index_ok_after_update, lemma_lobby_at, lemma_pair_gives_key,
    lobby_at, ServerState,
};

verus! {

/// The matchmaking session topology: sockets are grouped by lobby, and
/// every event fans out to the other connected members of the lobby.
#[derive(Debug, Default)]
pub struct MatchmakingDemoTopology;

/// A frame a client may send.
pub enum PeerRequestMsg {
    /// Relay `data` to the peer holding `receiver`.
    Signal { receiver: u128, data: String },
    /// Consumed with no action.
    KeepAlive,
}

/// An event the server sends to one peer.
pub enum PeerEventMsg {
    /// A new member's socket joined the lobby.
    NewPeer(u128),
    /// A member's socket left the lobby.
    PeerLeft(u128),
    /// A relayed signal, stamped with its sender's handle.
    Signal { sender: u128, data: String },
}

/// A directed send the session asks the transport to perform.
pub struct SendCmd {
    pub to: u128,
    pub event: PeerEventMsg,
}

/// Why reading the next frame failed.
pub enum FrameError {
    /// Unrecoverable transport failure: the session drains.
    Transport,
    /// The client closed the socket: the session drains.
    Close,
    /// Malformed JSON: logged, the session continues.
    Json,
    /// A frame of an unsupported type: logged, the session continues.
    UnsupportedType,
}

/// Decides whether the relay loop survives a failed read: JSON and
/// unsupported-type errors are skipped, transport errors and close
/// frames end the session.
pub fn frame_error_continues(e: &FrameError) -> (r: bool)
    ensures
        r == (e matches FrameError::Json || e matches FrameError::UnsupportedType),
{
    match e {
        FrameError::Json => true,
        FrameError::UnsupportedType => true,
        FrameError::Transport => false,
        FrameError::Close => false,
    }
}

/// The relay decision for one frame from the peer holding `sender`: a
/// signal is forwarded verbatim to its receiver, restamped with the
/// sender's handle; a keep-alive does nothing.
pub fn relay_request(sender: u128, req: PeerRequestMsg) -> (r: Option<SendCmd>)
    ensures
        match req {
            PeerRequestMsg::Signal { receiver, data } => r matches Some(cmd) && cmd.to == receiver
                && (cmd.event matches PeerEventMsg::Signal { sender: s, data: d } && s == sender
                && d@ == data@),
            PeerRequestMsg::KeepAlive => r is None,
        },
{
    match req {
        PeerRequestMsg::Signal { receiver, data } => Some(
            SendCmd { to: receiver, event: PeerEventMsg::Signal { sender, data } },
        ),
        PeerRequestMsg::KeepAlive => None,
    }
}

/// What the enrollment of a freshly correlated socket decided.
pub struct ConnectPlan {
    /// The player the socket belongs to.
    pub player: PlayerId,
    /// The lobby the player is a member of.
    pub lobby_id: u128,
    /// Whether this connection started the game.
    pub started: bool,
    /// The handles of the lobby's other connected members, each owed a
    /// `NewPeer` event.
    pub notify: Vec<u128>,
}

/// What the teardown of a socket decided.
pub struct DisconnectPlan {
    /// Whether the lobby returned to `Waiting` because its last
    /// connected member left.
    pub ended: bool,
    /// The handles of the lobby's remaining connected members, each
    /// owed a `PeerLeft` event.
    pub notify: Vec<u128>,
}

/// True when `h` is the handle of a connected member of the lobby
/// other than `player`.
pub open spec fn other_member_handle(
    lobby: crate::lobby::LobbyModel,
    peers: crate::index::IdTable,
    player: Seq<char>,
    h: u128,
) -> bool {
    exists|q: Seq<char>| #[trigger] lobby.has_player(q) && q != player && pair_in(peers, q, h)
}

impl ServerState {
    /// Authorizes a socket upgrade: the path credential is validated,
    /// and on success the origin is remembered against the player
    /// until the transport assigns a peer handle. A token minted for
    /// `(s, u, e)` under this secret is accepted exactly while `e`
    /// lies ahead, and then maps the origin to `s`.
    pub fn authorize_connection(
        &mut self,
        origin: String,
        token: &str,
        secret: &AuthSecret,
        now_secs: u64,
    ) -> (r: Result<(), crate::auth::AuthError>)
        requires
            old(self).inv(),
        ensures
            final(self).inv(),
            final(self).lobbies() == old(self).lobbies(),
            final(self).index() == old(self).index(),
            final(self).peers() == old(self).peers(),
            final(self).challenges() == old(self).challenges(),
            r is Err ==> final(self).waiting() == old(self).waiting(),
            r is Ok ==> (exists|s: Seq<char>| spair_in(final(self).waiting(), origin@, s)) && (
            forall|x: Seq<char>, y: Seq<char>|
                x != origin@ ==> (spair_in(final(self).waiting(), x, y) <==> spair_in(
                    old(self).waiting(),
                    x,
                    y,
                ))),
            forall|s: Seq<char>, u: Seq<char>, e: u64|
                token@ == crate::auth::jwt_of(s, u, e, secret.0@) ==> if e > now_secs {
                    r is Ok && spair_in(final(self).waiting(), origin@, s)
                } else {
                    r is Err
                },
    {
        let claims = match crate::auth::validate_token(token, secret, now_secs) {
            Ok(c) => c,
            Err(e) => {
                return Err(e);
            },
        };
        let ghost sub = claims.sub@;
        self.waiting_players.set(origin, claims.sub);
        proof {
            assert(spair_in(self.waiting(), origin@, sub));
        }
        Ok(())
    }

    /// Correlates an assigned peer handle with its player: the waiting
    /// entry for the socket's origin moves into the live-socket table
    /// under the handle. An origin nobody was waiting on is discarded.
    pub fn assign_peer(&mut self, origin: &String, peer: u128) -> (r: Option<PlayerId>)
        requires
            old(self).inv(),
        ensures
            final(self).inv(),
            final(self).lobbies() == old(self).lobbies(),
            final(self).index() == old(self).index(),
            final(self).challenges() == old(self).challenges(),
            match r {
                Some(p) => {
                    &&& spair_in(old(self).waiting(), origin@, p@)
                    &&& !skey_in(final(self).waiting(), origin@)
                    &&& (forall|x: Seq<char>, y: Seq<char>|
                        x != origin@ ==> (spair_in(final(self).waiting(), x, y) <==> spair_in(
                            old(self).waiting(),
                            x,
                            y,
                        )))
                    &&& pair_in(final(self).peers(), p@, peer)
                    &&& (forall|x: Seq<char>, y: u128|
                        pair_in(final(self).peers(), x, y) <==> ((pair_in(old(self).peers(), x, y)
                            && x != p@ && y != peer) || (x == p@ && y == peer)))
                },
                None => {
                    &&& !skey_in(old(self).waiting(), origin@)
                    &&& final(self).waiting() == old(self).waiting()
                    &&& final(self).peers() == old(self).peers()
                },
            },
    {
        let player = match self.waiting_players.remove(origin) {
            Some(p) => p,
            None => {
                return None;
            },
        };
        let ghost pv = player@;
        let ghost peers0 = self.peers();
        self.players_to_peers.remove_by_val(peer);
        let ghost peers1 = self.peers();
        let copy = player.clone();
        self.players_to_peers.set(player, peer);
        proof {
            let peers2 = self.peers();
            assert(pair_in(peers2, pv, peer));
            assert forall|x: Seq<char>, y: u128|
                pair_in(peers2, x, y) implies ((pair_in(peers0, x, y) && x != pv && y != peer) || (
            x == pv && y == peer)) by {
                if x == pv {
                    crate::index::lemma_key_determines_val(peers2, pv, y, peer);
                } else {
                    assert(pair_in(peers1, x, y));
                    if y == peer {
                        assert(val_in(peers1, peer)) by {
                            let i = choose|i: int|
                                0 <= i < peers1.len() && peers1[i] == (x, y);
                            assert(peers1[i].1 == peer);
                        }
                    }
                }
            }
            assert forall|x: Seq<char>, y: u128|
                (pair_in(peers0, x, y) && x != pv && y != peer) implies pair_in(peers2, x, y) by {
                assert(pair_in(peers1, x, y));
            }
            assert forall|a: int, b: int|
                0 <= a < b < peers2.len() implies peers2[a].1 != peers2[b].1 by {
                let xa = peers2[a].0;
                let xb = peers2[b].0;
                if peers2[a].1 == peers2[b].1 {
                    let y = peers2[a].1;
                    assert(pair_in(peers2, xa, y));
                    assert(pair_in(peers2, xb, y));
                    assert(xa != xb);
                    if xa == pv {
                        crate::index::lemma_key_determines_val(peers2, pv, y, peer);
                        assert(pair_in(peers0, xb, y) && y != peer);
                    } else if xb == pv {
                        crate::index::lemma_key_determines_val(peers2, pv, y, peer);
                        assert(pair_in(peers0, xa, y) && y != peer);
                    } else {
                        assert(pair_in(peers0, xa, y) && pair_in(peers0, xb, y));
                        crate::index::lemma_val_determines_key(peers0, xa, xb, y);
                    }
                }
            }
        }
        Some(copy)
    }

    /// The handles of the connected members of `players` other than
    /// `me`.
    fn connected_handles_except(&self, players: &Vec<PlayerId>, me: &PlayerId) -> (r: Vec<u128>)
        requires
            self.inv(),
        ensures
            forall|h: u128|
                r@.contains(h) <==> exists|q: Seq<char>| #[trigger]
                    crate::lobby::id_in(players.deep_view(), q) && q != me@ && pair_in(
                        self.peers(),
                        q,
                        h,
                    ),
    {
        let mut out: Vec<u128> = Vec::new();
        let n = players.len();
        for i in 0..n
            invariant
                n == players.len(),
                self.inv(),
                forall|h: u128|
                    out@.contains(h) <==> exists|j: int|
                        0 <= j < i && (#[trigger] players.deep_view()[j]) != me@ && pair_in(
                            self.peers(),
                            players.deep_view()[j],
                            h,
                        ),
        {
            assert(players.deep_view()[i as int] == players[i as int]@);
            let ghost prev = out@;
            if !(players[i] == *me) {
                match self.players_to_peers.get(&players[i]) {
                    Some(h) => {
                        out.push(h);
                        assert(out@ =~= prev.push(h));
                        assert forall|x: u128| out@.contains(x) implies exists|j: int|
                            0 <= j < i + 1 && (#[trigger] players.deep_view()[j]) != me@
                                && pair_in(self.peers(), players.deep_view()[j], x) by {
                            if prev.contains(x) {
                                let j = choose|j: int|
                                    0 <= j < i && (#[trigger] players.deep_view()[j]) != me@
                                        && pair_in(self.peers(), players.deep_view()[j], x);
                                assert(0 <= j < i + 1 && players.deep_view()[j] != me@
                                    && pair_in(self.peers(), players.deep_view()[j], x));
                            } else {
                                assert(x == h);
                                assert(players.deep_view()[i as int] != me@ && pair_in(
                                    self.peers(),
                                    players.deep_view()[i as int],
                                    x,
                                ));
                            }
                        }
                        assert forall|x: u128|
                            (exists|j: int|
                                0 <= j < i + 1 && (#[trigger] players.deep_view()[j]) != me@
                                    && pair_in(self.peers(), players.deep_view()[j], x)) implies
                            out@.contains(x) by {
                            let j = choose|j: int|
                                0 <= j < i + 1 && (#[trigger] players.deep_view()[j]) != me@
                                    && pair_in(self.peers(), players.deep_view()[j], x);
                            if j < i {
                                assert(prev.contains(x));
                                let m = choose|m: int| 0 <= m < prev.len() && prev[m] == x;
                                assert(out@[m] == x);
                            } else {
                                crate::index::lemma_key_determines_val(
                                    self.peers(),
                                    players.deep_view()[i as int],
                                    x,
                                    h,
                                );
                                assert(out@[out@.len() - 1] == x);
                            }
                        }
                    },
                    None => {
                        assert forall|x: u128|
                            (exists|j: int|
                                0 <= j < i + 1 && (#[trigger] players.deep_view()[j]) != me@
                                    && pair_in(self.peers(), players.deep_view()[j], x)) implies
                            out@.contains(x) by {
                            let j = choose|j: int|
                                0 <= j < i + 1 && (#[trigger] players.deep_view()[j]) != me@
                                    && pair_in(self.peers(), players.deep_view()[j], x);
                            if j == i {
                                lemma_pair_gives_key(self.peers(), players.deep_view()[j], x);
                            }
                        }
                    },
                }
            } else {
                assert forall|x: u128|
                    (exists|j: int|
                        0 <= j < i + 1 && (#[trigger] players.deep_view()[j]) != me@ && pair_in(
                            self.peers(),
                            players.deep_view()[j],
                            x,
                        )) implies out@.contains(x) by {
                    let j = choose|j: int|
                        0 <= j < i + 1 && (#[trigger] players.deep_view()[j]) != me@ && pair_in(
                            self.peers(),
                            players.deep_view()[j],
                            x,
                        );
                    assert(j != i);
                }
            }
        }
        proof {
            assert forall|h: u128| out@.contains(h) implies exists|q: Seq<char>| #[trigger]
                crate::lobby::id_in(players.deep_view(), q) && q != me@ && pair_in(
                    self.peers(),
                    q,
                    h,
                ) by {
                let j = choose|j: int|
                    0 <= j < n && (#[trigger] players.deep_view()[j]) != me@ && pair_in(
                        self.peers(),
                        players.deep_view()[j],
                        h,
                    );
                let q = players.deep_view()[j];
                assert(crate::lobby::id_in(players.deep_view(), q));
            }
            assert forall|h: u128|
                (exists|q: Seq<char>| #[trigger] crate::lobby::id_in(players.deep_view(), q) && q
                    != me@ && pair_in(self.peers(), q, h)) implies out@.contains(h) by {
                let q = choose|q: Seq<char>| #[trigger]
                    crate::lobby::id_in(players.deep_view(), q) && q != me@ && pair_in(
                        self.peers(),
                        q,
                        h,
                    );
                let j = choose|j: int|
                    0 <= j < players.deep_view().len() && players.deep_view()[j] == q;
                assert(0 <= j < n && players.deep_view()[j] != me@ && pair_in(
                    self.peers(),
                    players.deep_view()[j],
                    h,
                ));
            }
        }
        out
    }

    /// True when some identity of `players` has a live socket.
    fn any_member_connected(&self, players: &Vec<PlayerId>) -> (r: bool)
        ensures
            r == exists|q: Seq<char>| #[trigger]
                crate::lobby::id_in(players.deep_view(), q) && key_in(self.peers(), q),
    {
        let n = players.len();
        for i in 0..n
            invariant
                n == players.len(),
                forall|j: int|
                    0 <= j < i ==> !key_in(self.peers(), #[trigger] players.deep_view()[j]),
        {
            assert(players.deep_view()[i as int] == players[i as int]@);
            if self.players_to_peers.contains_key(&players[i]) {
                proof {
                    let q = players.deep_view()[i as int];
                    assert(crate::lobby::id_in(players.deep_view(), q));
                }
                return true;
            }
        }
        proof {
            if exists|q: Seq<char>| #[trigger] crate::lobby::id_in(players.deep_view(), q)
                && key_in(self.peers(), q) {
                let q = choose|q: Seq<char>| #[trigger]
                    crate::lobby::id_in(players.deep_view(), q) && key_in(self.peers(), q);
                let j = choose|j: int|
                    0 <= j < players.deep_view().len() && players.deep_view()[j] == q;
                assert(!key_in(self.peers(), players.deep_view()[j]));
            }
        }
        false
    }

    /// Looks up who a live socket belongs to and which lobby they are
    /// in: the session exits without side effects when either is
    /// unknown.
    pub fn correlate(&self, peer: u128) -> (r: Option<(PlayerId, u128)>)
        requires
            self.inv(),
        ensures
            match r {
                Some(pl) => pair_in(self.peers(), pl.0@, peer) && pair_in(
                    self.index(),
                    pl.0@,
                    pl.1,
                ),
                None => forall|p: Seq<char>|
                    pair_in(self.peers(), p, peer) ==> !key_in(self.index(), p),
            },
    {
        let player = match self.players_to_peers.key_of_val(peer) {
            Some(p) => p,
            None => {
                proof {
                    assert forall|p: Seq<char>|
                        pair_in(self.peers(), p, peer) implies !key_in(self.index(), p) by {
                        let i = choose|i: int|
                            0 <= i < self.peers().len() && self.peers()[i] == (p, peer);
                        assert(self.peers()[i].1 == peer);
                    }
                }
                return None;
            },
        };
        match self.players_in_lobbies.get(&player) {
            Some(lobby_id) => Some((player, lobby_id)),
            None => {
                proof {
                    assert forall|p: Seq<char>|
                        pair_in(self.peers(), p, peer) implies !key_in(self.index(), p) by {
                        crate::index::lemma_val_determines_key(self.peers(), p, player@, peer);
                    }
                }
                None
            },
        }
    }

    /// Enrolls a freshly assigned socket: the player and lobby are
    /// recovered from the handle; an owner connecting to a waiting
    /// lobby starts the game; and every other connected member is owed
    /// a `NewPeer` event. A socket whose player or lobby is unknown
    /// yields no plan, and the session ends without side effects.
    pub fn peer_connected(&mut self, peer: u128) -> (r: Option<ConnectPlan>)
        requires
            old(self).inv(),
        ensures
            final(self).inv(),
            final(self).index() == old(self).index(),
            final(self).peers() == old(self).peers(),
            final(self).waiting() == old(self).waiting(),
            final(self).challenges() == old(self).challenges(),
            match r {
                None => final(self).lobbies() == old(self).lobbies() && (forall|p: Seq<char>|
                    pair_in(old(self).peers(), p, peer) ==> !key_in(old(self).index(), p)),
                Some(plan) => {
                    &&& pair_in(old(self).peers(), plan.player@, peer)
                    &&& pair_in(old(self).index(), plan.player@, plan.lobby_id)
                    &&& has_lobby(old(self).lobbies(), plan.lobby_id)
                    &&& plan.started == (lobby_at(old(self).lobbies(), plan.lobby_id).owner
                        == plan.player@ && lobby_at(old(self).lobbies(), plan.lobby_id).status
                        == LobbyStatus::Waiting)
                    &&& final(self).lobbies() == if plan.started {
                        old(self).lobbies().update(
                            idx_of(old(self).lobbies(), plan.lobby_id),
                            crate::lobby::LobbyModel {
                                status: LobbyStatus::InProgress,
                                ..lobby_at(old(self).lobbies(), plan.lobby_id)
                            },
                        )
                    } else {
                        old(self).lobbies()
                    }
                    &&& (forall|h: u128|
                        plan.notify@.contains(h) <==> other_member_handle(
                            lobby_at(old(self).lobbies(), plan.lobby_id),
                            old(self).peers(),
                            plan.player@,
                            h,
                        ))
                },
            },
    {
        let (player, lobby_id) = match self.correlate(peer) {
            Some(x) => x,
            None => {
                return None;
            },
        };
        let lobby = match self.lobby_manager.get_lobby(lobby_id) {
            Some(l) => l,
            None => {
                proof {
                    assert(pair_in(self.index(), player@, lobby_id));
                }
                vstd::pervasive::unreached()
            },
        };
        proof {
            lemma_lobby_at(self.lobbies(), lobby_id, idx_of(self.lobbies(), lobby_id));
        }
        let started = lobby.owner == player && matches!(lobby.status, LobbyStatus::Waiting);
        let notify = self.connected_handles_except(&lobby.players, &player);
        let ghost lobbies0 = self.lobbies();
        if started {
            let res = self.lobby_manager.start_lobby(lobby_id, &player);
            proof {
                assert(res is Ok);
                let i = idx_of(lobbies0, lobby_id);
                assert forall|x: Seq<char>|
                    self.lobbies()[i].has_player(x) <==> lobbies0[i].has_player(x) by {
                    assert(lobby_at(lobbies0, lobby_id) == lobbies0[i]);
                }
                lemma_index_ok_after_update(lobbies0, self.lobbies(), i, self.index());
            }
        }
        proof {
            let l = lobby_at(lobbies0, lobby_id);
            let peers0 = self.peers();
            assert forall|h: u128|
                notify@.contains(h) implies other_member_handle(l, peers0, player@, h) by {
                let q = choose|q: Seq<char>| #[trigger]
                    crate::lobby::id_in(lobby.players.deep_view(), q) && q != player@ && pair_in(
                        peers0,
                        q,
                        h,
                    );
                assert(l.has_player(q));
            }
            assert forall|h: u128|
                other_member_handle(l, peers0, player@, h) implies notify@.contains(h) by {
                let q = choose|q: Seq<char>| #[trigger]
                    l.has_player(q) && q != player@ && pair_in(peers0, q, h);
                assert(crate::lobby::id_in(lobby.players.deep_view(), q));
            }
        }
        Some(ConnectPlan { player, lobby_id, started, notify })
    }

    /// Tears a socket down: the connection goes while the lobby
    /// membership stays, so the player can reconnect; when no member
    /// of the lobby is connected any more, the lobby returns to
    /// `Waiting`; and every remaining connected member is owed a
    /// `PeerLeft` event.
    pub fn peer_disconnected(&mut self, peer: u128, player: &PlayerId, lobby_id: u128) -> (r:
        DisconnectPlan)
        requires
            old(self).inv(),
        ensures
            final(self).inv(),
            final(self).index() == old(self).index(),
            final(self).waiting() == old(self).waiting(),
            final(self).challenges() == old(self).challenges(),
            !key_in(final(self).peers(), player@),
            forall|x: Seq<char>, y: u128|
                x != player@ ==> (pair_in(final(self).peers(), x, y) <==> pair_in(
                    old(self).peers(),
                    x,
                    y,
                )),
            if has_lobby(old(self).lobbies(), lobby_id) {
                let l = lobby_at(old(self).lobbies(), lobby_id);
                &&& r.ended == !(exists|q: Seq<char>| #[trigger]
                    l.has_player(q) && key_in(final(self).peers(), q))
                &&& final(self).lobbies() == if r.ended && l.status == LobbyStatus::InProgress {
                    old(self).lobbies().update(
                        idx_of(old(self).lobbies(), lobby_id),
                        crate::lobby::LobbyModel { status: LobbyStatus::Waiting, ..l },
                    )
                } else {
                    old(self).lobbies()
                }
                &&& (forall|h: u128|
                    r.notify@.contains(h) <==> other_member_handle(
                        l,
                        final(self).peers(),
                        player@,
                        h,
                    ))
            } else {
                &&& final(self).lobbies() == old(self).lobbies()
                &&& r.ended == false
                &&& r.notify@ =~= Seq::<u128>::empty()
            },
    {
        self.remove_connection_only(player);
        let lobby = match self.lobby_manager.get_lobby(lobby_id) {
            Some(l) => l,
            None => {
                return DisconnectPlan { ended: false, notify: Vec::new() };
            },
        };
        proof {
            lemma_lobby_at(self.lobbies(), lobby_id, idx_of(self.lobbies(), lobby_id));
        }
        let still = self.any_member_connected(&lobby.players);
        let ghost lobbies0 = self.lobbies();
        if !still {
            let res = self.lobby_manager.end_lobby(lobby_id);
            proof {
                assert(res is Ok);
                let i = idx_of(lobbies0, lobby_id);
                assert forall|x: Seq<char>|
                    self.lobbies()[i].has_player(x) <==> lobbies0[i].has_player(x) by {
                    assert(lobby_at(lobbies0, lobby_id) == lobbies0[i]);
                }
                lemma_index_ok_after_update(lobbies0, self.lobbies(), i, self.index());
            }
        }
        let notify = self.connected_handles_except(&lobby.players, player);
        proof {
            let l = lobby_at(lobbies0, lobby_id);
            let peers1 = self.peers();
            assert forall|h: u128|
                notify@.contains(h) implies other_member_handle(l, peers1, player@, h) by {
                let q = choose|q: Seq<char>| #[trigger]
                    crate::lobby::id_in(lobby.players.deep_view(), q) && q != player@ && pair_in(
                        peers1,
                        q,
                        h,
                    );
                assert(l.has_player(q));
            }
            assert forall|h: u128|
                other_member_handle(l, peers1, player@, h) implies notify@.contains(h) by {
                let q = choose|q: Seq<char>| #[trigger]
                    l.has_player(q) && q != player@ && pair_in(peers1, q, h);
                assert(crate::lobby::id_in(lobby.players.deep_view(), q));
            }
            if still {
                let q = choose|q: Seq<char>| #[trigger]
                    crate::lobby::id_in(lobby.players.deep_view(), q) && key_in(peers1, q);
                assert(l.has_player(q));
            } else {
                if exists|q: Seq<char>| #[trigger] l.has_player(q) && key_in(peers1, q) {
                    let q = choose|q: Seq<char>| #[trigger]
                        l.has_player(q) && key_in(peers1, q);
                    assert(crate::lobby::id_in(lobby.players.deep_view(), q));
                    assert(false);
                }
            }
        }
        DisconnectPlan { ended: !still, notify }
    }
}

} // verus!
