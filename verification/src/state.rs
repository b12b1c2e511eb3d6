//! The lobby registry: the in-memory lobby table, the operations on
//! it, and the invariants they keep.

use vstd::prelude::*;
use crate::auth::ChallengeManager;
use crate::errors::ApiError;
use crate::index::{key_in, keys_unique, pair_in, vals_unique, IdIndex, IdTable, OriginIndex};
use crate::lobby::{
    contains_id, dedup_ids, id_in, ids_unique, remove_id, union_ids, Lobby, LobbyModel,
    LobbyStatus, PlayerId,
};

verus! {

/// True when some lobby in `m` has id `id`.
pub open spec fn has_lobby(m: Seq<LobbyModel>, id: u128) -> bool {
    exists|i: int| 0 <= i < m.len() && m[i].id == id
}

/// The position of the lobby with id `id` (meaningful when ids are
/// unique and `has_lobby` holds).
pub open spec fn idx_of(m: Seq<LobbyModel>, id: u128) -> int {
    choose|i: int| 0 <= i < m.len() && m[i].id == id
}

/// The lobby with id `id`.
pub open spec fn lobby_at(m: Seq<LobbyModel>, id: u128) -> LobbyModel {
    m[idx_of(m, id)]
}

/// True when no two lobbies share an id.
pub open spec fn lobby_ids_unique(m: Seq<LobbyModel>) -> bool {
    forall|i: int, j: int| 0 <= i < j < m.len() ==> m[i].id != m[j].id
}

/// With unique ids, any position holding `id` is the position
/// `idx_of` names.
pub proof fn lemma_lobby_at(m: Seq<LobbyModel>, id: u128, i: int)
    requires
        lobby_ids_unique(m),
        0 <= i < m.len(),
        m[i].id == id,
    ensures
        idx_of(m, id) == i,
        lobby_at(m, id) == m[i],
        has_lobby(m, id),
{
    assert(has_lobby(m, id));
    let j = idx_of(m, id);
    assert(0 <= j < m.len() && m[j].id == id);
    if i < j {
        assert(m[i].id != m[j].id);
    }
    if j < i {
        assert(m[j].id != m[i].id);
    }
}

/// The lobbies of `m` that `viewer` may discover, in table order.
pub open spec fn visible_filter(m: Seq<LobbyModel>, viewer: Option<Seq<char>>) -> Seq<LobbyModel> {
    m.filter(|l: LobbyModel| l.visible_to(viewer))
}

/// Replacing one lobby by a well-formed lobby with the same id keeps
/// the table well-formed.
pub proof fn lemma_wf_update(pre: Seq<LobbyModel>, post: Seq<LobbyModel>, i: int)
    requires
        lobby_ids_unique(pre),
        forall|j: int| 0 <= j < pre.len() ==> (#[trigger] pre[j]).wf(),
        post.len() == pre.len(),
        forall|j: int| 0 <= j < pre.len() && j != i ==> post[j] == pre[j],
        0 <= i < pre.len(),
        post[i].id == pre[i].id,
        post[i].wf(),
    ensures
        lobby_ids_unique(post),
        forall|j: int| 0 <= j < post.len() ==> (#[trigger] post[j]).wf(),
{
    assert forall|a: int, b: int| 0 <= a < b < post.len() implies post[a].id != post[b].id by {
        assert(post[a].id == pre[a].id);
        assert(post[b].id == pre[b].id);
    }
    assert forall|j: int| 0 <= j < post.len() implies (#[trigger] post[j]).wf() by {
        if j != i {
            assert(post[j] == pre[j]);
        }
    }
}

/// The in-memory table of lobbies.
pub struct LobbyManager {
    pub lobbies: Vec<Lobby>,
}

impl View for LobbyManager {
    type V = Seq<LobbyModel>;

    open spec fn view(&self) -> Seq<LobbyModel> {
        self.lobbies.deep_view()
    }
}

/// Relies on uuid::Uuid::new_v4 for a random 128-bit lobby
/// identifier; nothing is assumed of the value drawn.
#[verifier::external_body]
fn random_lobby_id() -> u128 {
    uuid::Uuid::new_v4().as_u128()
}

impl LobbyManager {
    /// Well-formedness: ids are unique and every lobby is well-formed.
    pub open spec fn wf(self) -> bool {
        &&& lobby_ids_unique(self@)
        &&& forall|i: int| 0 <= i < self@.len() ==> (#[trigger] self@[i]).wf()
    }

    pub fn new() -> (r: LobbyManager)
        ensures
            r@ =~= Seq::<LobbyModel>::empty(),
            r.wf(),
    {
        LobbyManager { lobbies: Vec::new() }
    }

    /// The position of the lobby with id `id`, if any.
    fn find_idx(&self, id: u128) -> (r: Option<usize>)
        ensures
            match r {
                Some(i) => 0 <= i < self@.len() && self@[i as int].id == id,
                None => !has_lobby(self@, id),
            },
    {
        let n = self.lobbies.len();
        for i in 0..n
            invariant
                n == self.lobbies.len(),
                forall|j: int| 0 <= j < i ==> self@[j].id != id,
        {
            assert(self@[i as int] == self.lobbies[i as int]@);
            if self.lobbies[i].id == id {
                return Some(i);
            }
        }
        None
    }

    /// An id no current lobby carries. A random draw is tried first;
    /// when it collides, one past the largest id in use is taken. Only
    /// a table that already holds the largest representable id can
    /// leave this without an answer.
    fn fresh_id(&self) -> (r: Option<u128>)
        ensures
            match r {
                Some(id) => !has_lobby(self@, id),
                None => has_lobby(self@, u128::MAX),
            },
    {
        let id = random_lobby_id();
        match self.find_idx(id) {
            None => Some(id),
            Some(_) => {
                let n = self.lobbies.len();
                let mut mx = self.lobbies[0].id;
                assert(self@[0] == self.lobbies[0 as int]@);
                for i in 1..n
                    invariant
                        n == self.lobbies.len(),
                        forall|j: int| 0 <= j < i ==> self@[j].id <= mx,
                        exists|j: int| 0 <= j < n && self@[j].id == mx,
                {
                    assert(self@[i as int] == self.lobbies[i as int]@);
                    if self.lobbies[i].id > mx {
                        mx = self.lobbies[i].id;
                    }
                }
                if mx < u128::MAX {
                    Some(mx + 1)
                } else {
                    None
                }
            },
        }
    }

    /// Creates a lobby with a fresh id and the creator already a
    /// member, and returns a copy of it. Only a table that already
    /// holds the largest representable id can make this fail.
    pub fn create_lobby_with_owner(
        &mut self,
        is_private: bool,
        owner: PlayerId,
        whitelist: Option<Vec<PlayerId>>,
    ) -> (r: Result<Lobby, ApiError>)
        requires
            old(self).wf(),
        ensures
            final(self).wf(),
            !has_lobby(old(self)@, u128::MAX) ==> r is Ok,
            r is Err ==> final(self)@ == old(self)@ && r == Err::<Lobby, ApiError>(
                ApiError::InternalIssueFailed,
            ),
            r matches Ok(l) ==> {
                &&& !has_lobby(old(self)@, l@.id)
                &&& final(self)@ == old(self)@.push(l@)
                &&& l@.owner == owner@
                &&& l@.players =~= seq![owner@]
                &&& l@.status == LobbyStatus::Waiting
                &&& l@.is_private == is_private
                &&& l@.wf()
                &&& match (whitelist, l@.whitelist) {
                    (Some(w), Some(v)) => ids_unique(v) && (forall|x: Seq<char>|
                        id_in(v, x) <==> id_in(w.deep_view(), x)),
                    (None, None) => true,
                    _ => false,
                }
            },
    {
        let id = match self.fresh_id() {
            Some(id) => id,
            None => {
                return Err(ApiError::InternalIssueFailed);
            },
        };
        let wl = match &whitelist {
            Some(w) => Some(dedup_ids(w)),
            None => None,
        };
        let mut players: Vec<PlayerId> = Vec::new();
        players.push(owner.clone());
        let lobby = Lobby {
            id,
            owner,
            players,
            status: LobbyStatus::Waiting,
            is_private,
            whitelist: wl,
        };
        let copy = lobby.clone();
        let ghost pre = old(self)@;
        self.lobbies.push(lobby);
        assert(self@ =~= pre.push(copy@));
        assert(copy@.players =~= seq![copy@.owner]);
        proof {
            assert(copy@.players[0] == copy@.owner);
            assert(copy@.wf());
        }
        proof {
            let m = self@;
            assert forall|i: int, j: int| 0 <= i < j < m.len() implies m[i].id != m[j].id by {
                if j == m.len() - 1 {
                    assert(has_lobby(pre, m[j].id) ==> false);
                    assert(pre[i].id == m[i].id);
                }
            }
        }
        Ok(copy)
    }

    /// Looks a lobby up by id and returns a copy.
    pub fn get_lobby(&self, id: u128) -> (r: Option<Lobby>)
        ensures
            match r {
                Some(l) => {
                    &&& has_lobby(self@, id)
                    &&& l@.id == id
                    &&& exists|i: int| 0 <= i < self@.len() && self@[i] == l@
                    &&& (self.wf() ==> l@ == lobby_at(self@, id))
                },
                None => !has_lobby(self@, id),
            },
    {
        match self.find_idx(id) {
            Some(i) => {
                let l = self.lobbies[i].clone();
                proof {
                    assert(self@[i as int] == self.lobbies[i as int]@);
                    if self.wf() {
                        lemma_lobby_at(self@, id, i as int);
                    }
                }
                Some(l)
            },
            None => None,
        }
    }

    /// The lobbies the viewer may discover: exactly those the
    /// visibility rule admits, in table order.
    pub fn get_lobbies_for_player(&self, player_pubkey: Option<PlayerId>) -> (r: Vec<Lobby>)
        ensures
            r.deep_view() == visible_filter(self@, player_pubkey.deep_view()),
    {
        let ghost vv = player_pubkey.deep_view();
        let mut out: Vec<Lobby> = Vec::new();
        let n = self.lobbies.len();
        for i in 0..n
            invariant
                n == self.lobbies.len(),
                vv == player_pubkey.deep_view(),
                out.deep_view() == visible_filter(self@.subrange(0, i as int), vv),
        {
            let ghost sub0 = self@.subrange(0, i as int);
            let ghost sub1 = self@.subrange(0, i + 1);
            assert(self@[i as int] == self.lobbies[i as int]@);
            assert(sub1.drop_last() =~= sub0);
            assert(sub1.last() == self@[i as int]);
            let ghost prev = out.deep_view();
            assert(prev == visible_filter(sub0, vv));
            let vis = self.lobbies[i].visible_to(&player_pubkey);
            assert(vis == self@[i as int].visible_to(vv));
            if vis {
                out.push(self.lobbies[i].clone());
                assert(out.deep_view() =~= prev.push(self@[i as int]));
            }
            assert(visible_filter(sub1, vv) == if sub1.last().visible_to(vv) {
                visible_filter(sub0, vv).push(sub1.last())
            } else {
                visible_filter(sub0, vv)
            }) by {
                reveal(Seq::filter);
            }
            assert(out.deep_view() == visible_filter(sub1, vv));
        }
        assert(self@.subrange(0, n as int) =~= self@);
        out
    }

    /// Adds a player to a waiting lobby that admits them. A lobby that
    /// is absent or no longer waiting looks the same to the caller:
    /// not found. Adding a player twice is harmless.
    pub fn add_player_to_lobby(&mut self, lobby_id: u128, player_id: PlayerId) -> (r: Result<
        (),
        ApiError,
    >)
        requires
            old(self).wf(),
        ensures
            final(self).wf(),
            match r {
                Ok(()) => {
                    &&& has_lobby(old(self)@, lobby_id)
                    &&& lobby_at(old(self)@, lobby_id).status == LobbyStatus::Waiting
                    &&& lobby_at(old(self)@, lobby_id).join_allowed_by_whitelist(player_id@)
                    &&& final(self)@.len() == old(self)@.len()
                    &&& (forall|j: int|
                        0 <= j < old(self)@.len() && j != idx_of(old(self)@, lobby_id)
                            ==> final(self)@[j] == old(self)@[j])
                    &&& lobby_at(old(self)@, lobby_id).player_added(
                        final(self)@[idx_of(old(self)@, lobby_id)],
                        player_id@,
                    )
                },
                Err(ApiError::LobbyNotFound) => {
                    &&& final(self)@ == old(self)@
                    &&& (!has_lobby(old(self)@, lobby_id) || lobby_at(old(self)@, lobby_id).status
                        != LobbyStatus::Waiting)
                },
                Err(ApiError::NotInWhitelist) => {
                    &&& final(self)@ == old(self)@
                    &&& has_lobby(old(self)@, lobby_id)
                    &&& lobby_at(old(self)@, lobby_id).status == LobbyStatus::Waiting
                    &&& !lobby_at(old(self)@, lobby_id).join_allowed_by_whitelist(player_id@)
                },
                Err(_) => false,
            },
    {
        let i = match self.find_idx(lobby_id) {
            Some(i) => i,
            None => {
                return Err(ApiError::LobbyNotFound);
            },
        };
        proof {
            lemma_lobby_at(self@, lobby_id, i as int);
            assert(self@[i as int] == self.lobbies[i as int]@);
        }
        if !matches!(self.lobbies[i].status, LobbyStatus::Waiting) {
            return Err(ApiError::LobbyNotFound);
        }
        if let Some(w) = &self.lobbies[i].whitelist {
            if !contains_id(w, &player_id) {
                return Err(ApiError::NotInWhitelist);
            }
        }
        let ghost pre = self@;
        let ghost oldl = self@[i as int];
        if !contains_id(&self.lobbies[i].players, &player_id) {
            let ghost p = player_id@;
            let l = &mut self.lobbies[i];
            let ghost oldplayers = l.players.deep_view();
            l.players.push(player_id);
            assert(l.players.deep_view() =~= oldplayers.push(p));
            proof {
                assert forall|j: int|
                    0 <= j < pre.len() && j != i implies self@[j] == pre[j] by {
                    assert(self.lobbies@[j] == old(self).lobbies@[j]);
                }
                assert(self@[i as int] == self.lobbies[i as int]@);
                let newl = self@[i as int];
                assert forall|x: Seq<char>| id_in(newl.players, x) implies (id_in(
                    oldl.players,
                    x,
                ) || x == p) by {
                    let j = choose|j: int|
                        0 <= j < newl.players.len() && newl.players[j] == x;
                    if j < oldplayers.len() {
                        assert(oldl.players[j] == x);
                    }
                }
                assert forall|x: Seq<char>|
                    (id_in(oldl.players, x) || x == p) implies id_in(newl.players, x) by {
                    if id_in(oldl.players, x) {
                        let j = choose|j: int|
                            0 <= j < oldl.players.len() && oldl.players[j] == x;
                        assert(newl.players[j] == x);
                    } else {
                        assert(newl.players[newl.players.len() - 1] == x);
                    }
                }
                assert forall|a: int, b: int|
                    0 <= a < b < newl.players.len() implies newl.players[a]
                    != newl.players[b] by {
                    if b == newl.players.len() - 1 {
                        assert(newl.players[a] == oldplayers[a]);
                        if newl.players[a] == newl.players[b] {
                            assert(id_in(oldl.players, p));
                        }
                    }
                }
                assert(oldl.player_added(newl, p));
                assert(newl.wf());
            }
        } else {
            proof {
                assert(self@ =~= pre);
                assert(oldl.player_added(self@[i as int], player_id@));
            }
        }
        proof {
            assert(self@[i as int].id == pre[i as int].id);
            lemma_wf_update(pre, self@, i as int);
        }
        Ok(())
    }

    /// Marks a waiting lobby as in progress. Only the owner may start
    /// it; starting a lobby already in progress does nothing.
    pub fn start_lobby(&mut self, lobby_id: u128, owner_id: &PlayerId) -> (r: Result<
        (),
        ApiError,
    >)
        requires
            old(self).wf(),
        ensures
            final(self).wf(),
            match r {
                Ok(()) => {
                    &&& has_lobby(old(self)@, lobby_id)
                    &&& lobby_at(old(self)@, lobby_id).owner == owner_id@
                    &&& final(self)@ == if lobby_at(old(self)@, lobby_id).status
                        == LobbyStatus::Waiting {
                        old(self)@.update(
                            idx_of(old(self)@, lobby_id),
                            LobbyModel {
                                status: LobbyStatus::InProgress,
                                ..lobby_at(old(self)@, lobby_id)
                            },
                        )
                    } else {
                        old(self)@
                    }
                },
                Err(ApiError::NotOwner) => {
                    &&& final(self)@ == old(self)@
                    &&& has_lobby(old(self)@, lobby_id)
                    &&& lobby_at(old(self)@, lobby_id).owner != owner_id@
                },
                Err(ApiError::LobbyNotFound) => {
                    &&& final(self)@ == old(self)@
                    &&& !has_lobby(old(self)@, lobby_id)
                },
                Err(_) => false,
            },
    {
        let i = match self.find_idx(lobby_id) {
            Some(i) => i,
            None => {
                return Err(ApiError::LobbyNotFound);
            },
        };
        proof {
            lemma_lobby_at(self@, lobby_id, i as int);
            assert(self@[i as int] == self.lobbies[i as int]@);
        }
        if !(self.lobbies[i].owner == *owner_id) {
            return Err(ApiError::NotOwner);
        }
        if !matches!(self.lobbies[i].status, LobbyStatus::Waiting) {
            return Ok(());
        }
        let ghost pre = self@;
        let l = &mut self.lobbies[i];
        l.status = LobbyStatus::InProgress;
        proof {
            assert(self@ =~= pre.update(
                i as int,
                LobbyModel { status: LobbyStatus::InProgress, ..pre[i as int] },
            ));
            assert(self@[i as int].wf());
            lemma_wf_update(pre, self@, i as int);
        }
        Ok(())
    }

    /// Returns a lobby to the waiting state so it can host another
    /// round. Idempotent.
    pub fn end_lobby(&mut self, lobby_id: u128) -> (r: Result<(), ApiError>)
        requires
            old(self).wf(),
        ensures
            final(self).wf(),
            match r {
                Ok(()) => {
                    &&& has_lobby(old(self)@, lobby_id)
                    &&& final(self)@ == if lobby_at(old(self)@, lobby_id).status
                        == LobbyStatus::Waiting {
                        old(self)@
                    } else {
                        old(self)@.update(
                            idx_of(old(self)@, lobby_id),
                            LobbyModel {
                                status: LobbyStatus::Waiting,
                                ..lobby_at(old(self)@, lobby_id)
                            },
                        )
                    }
                },
                Err(ApiError::LobbyNotFound) => {
                    &&& final(self)@ == old(self)@
                    &&& !has_lobby(old(self)@, lobby_id)
                },
                Err(_) => false,
            },
    {
        let i = match self.find_idx(lobby_id) {
            Some(i) => i,
            None => {
                return Err(ApiError::LobbyNotFound);
            },
        };
        proof {
            lemma_lobby_at(self@, lobby_id, i as int);
            assert(self@[i as int] == self.lobbies[i as int]@);
        }
        if matches!(self.lobbies[i].status, LobbyStatus::Waiting) {
            return Ok(());
        }
        let ghost pre = self@;
        let l = &mut self.lobbies[i];
        l.status = LobbyStatus::Waiting;
        proof {
            assert(self@ =~= pre.update(
                i as int,
                LobbyModel { status: LobbyStatus::Waiting, ..pre[i as int] },
            ));
            assert(self@[i as int].wf());
            lemma_wf_update(pre, self@, i as int);
        }
        Ok(())
    }

    /// Removes a member from a lobby. The owner never leaves this way:
    /// an owner gives a lobby up only by deleting it, so a request to
    /// remove the owner does nothing, as does one naming an absent
    /// lobby or a non-member.
    pub fn remove_player_from_lobby(&mut self, lobby_id: u128, player_id: &PlayerId)
        requires
            old(self).wf(),
        ensures
            final(self).wf(),
            !has_lobby(old(self)@, lobby_id) ==> final(self)@ == old(self)@,
            has_lobby(old(self)@, lobby_id) && lobby_at(old(self)@, lobby_id).owner == player_id@
                ==> final(self)@ == old(self)@,
            has_lobby(old(self)@, lobby_id) && lobby_at(old(self)@, lobby_id).owner != player_id@
                ==> {
                &&& final(self)@.len() == old(self)@.len()
                &&& (forall|j: int|
                    0 <= j < old(self)@.len() && j != idx_of(old(self)@, lobby_id)
                        ==> final(self)@[j] == old(self)@[j])
                &&& lobby_at(old(self)@, lobby_id).player_removed(
                    final(self)@[idx_of(old(self)@, lobby_id)],
                    player_id@,
                )
            },
    {
        let i = match self.find_idx(lobby_id) {
            Some(i) => i,
            None => {
                return ;
            },
        };
        proof {
            lemma_lobby_at(self@, lobby_id, i as int);
            assert(self@[i as int] == self.lobbies[i as int]@);
        }
        if self.lobbies[i].owner == *player_id {
            return ;
        }
        let ghost pre = self@;
        let ghost oldl = self@[i as int];
        let l = &mut self.lobbies[i];
        remove_id(&mut l.players, player_id);
        proof {
            assert forall|j: int| 0 <= j < pre.len() && j != i implies self@[j] == pre[j] by {
                assert(self.lobbies@[j] == old(self).lobbies@[j]);
            }
            assert(self@[i as int] == self.lobbies[i as int]@);
            let newl = self@[i as int];
            assert(oldl.player_removed(newl, player_id@));
            assert(id_in(newl.players, newl.owner));
            assert(newl.wf());
            lemma_wf_update(pre, self@, i as int);
        }
    }

    /// Removes a lobby from the table outright.
    pub fn delete_lobby(&mut self, lobby_id: u128) -> (r: Result<(), ApiError>)
        requires
            old(self).wf(),
        ensures
            final(self).wf(),
            match r {
                Ok(()) => {
                    &&& has_lobby(old(self)@, lobby_id)
                    &&& final(self)@ == old(self)@.remove(idx_of(old(self)@, lobby_id))
                    &&& !has_lobby(final(self)@, lobby_id)
                },
                Err(ApiError::LobbyNotFound) => {
                    &&& final(self)@ == old(self)@
                    &&& !has_lobby(old(self)@, lobby_id)
                },
                Err(_) => false,
            },
    {
        let i = match self.find_idx(lobby_id) {
            Some(i) => i,
            None => {
                return Err(ApiError::LobbyNotFound);
            },
        };
        proof {
            lemma_lobby_at(self@, lobby_id, i as int);
            assert(self@[i as int] == self.lobbies[i as int]@);
        }
        let ghost pre = self@;
        self.lobbies.remove(i);
        proof {
            assert(self@ =~= pre.remove(i as int));
            assert forall|j: int| 0 <= j < self@.len() implies self@[j].id != lobby_id by {
                if j < i {
                    assert(self@[j] == pre[j]);
                } else {
                    assert(self@[j] == pre[j + 1]);
                }
            }
            assert forall|a: int, b: int|
                0 <= a < b < self@.len() implies self@[a].id != self@[b].id by {
                let a0 = if a < i {
                    a
                } else {
                    a + 1
                };
                let b0 = if b < i {
                    b
                } else {
                    b + 1
                };
                assert(self@[a] == pre[a0] && self@[b] == pre[b0]);
            }
            assert forall|j: int| 0 <= j < self@.len() implies (#[trigger] self@[j]).wf() by {
                if j < i {
                    assert(self@[j] == pre[j]);
                } else {
                    assert(self@[j] == pre[j + 1]);
                }
            }
        }
        Ok(())
    }

    /// Unions identities into the lobby's whitelist, creating the
    /// whitelist when the lobby had none.
    pub fn add_to_whitelist(&mut self, lobby_id: u128, player_ids: Vec<PlayerId>) -> (r: Result<
        (),
        ApiError,
    >)
        requires
            old(self).wf(),
        ensures
            final(self).wf(),
            match r {
                Ok(()) => {
                    &&& has_lobby(old(self)@, lobby_id)
                    &&& final(self)@.len() == old(self)@.len()
                    &&& (forall|j: int|
                        0 <= j < old(self)@.len() && j != idx_of(old(self)@, lobby_id)
                            ==> final(self)@[j] == old(self)@[j])
                    &&& {
                        let oldl = lobby_at(old(self)@, lobby_id);
                        let newl = final(self)@[idx_of(old(self)@, lobby_id)];
                        &&& oldl.same_but_whitelist(newl)
                        &&& newl.whitelist matches Some(w) && ids_unique(w) && (forall|
                            x: Seq<char>,
                        |
                            id_in(w, x) <==> (oldl.whitelisted(x) || id_in(
                                player_ids.deep_view(),
                                x,
                            )))
                    }
                },
                Err(ApiError::LobbyNotFound) => {
                    &&& final(self)@ == old(self)@
                    &&& !has_lobby(old(self)@, lobby_id)
                },
                Err(_) => false,
            },
    {
        let i = match self.find_idx(lobby_id) {
            Some(i) => i,
            None => {
                return Err(ApiError::LobbyNotFound);
            },
        };
        proof {
            lemma_lobby_at(self@, lobby_id, i as int);
            assert(self@[i as int] == self.lobbies[i as int]@);
        }
        let ghost pre = self@;
        let ghost oldl = self@[i as int];
        let new_wl = match &self.lobbies[i].whitelist {
            Some(w) => union_ids(w, &player_ids),
            None => dedup_ids(&player_ids),
        };
        let l = &mut self.lobbies[i];
        l.whitelist = Some(new_wl);
        proof {
            assert forall|j: int| 0 <= j < pre.len() && j != i implies self@[j] == pre[j] by {
                assert(self.lobbies@[j] == old(self).lobbies@[j]);
            }
            assert(self@[i as int] == self.lobbies[i as int]@);
            assert(self@[i as int].wf());
            lemma_wf_update(pre, self@, i as int);
        }
        Ok(())
    }

    /// Drops an identity from the lobby's whitelist, when there is one.
    pub fn remove_from_whitelist(&mut self, lobby_id: u128, player_id: &PlayerId) -> (r: Result<
        (),
        ApiError,
    >)
        requires
            old(self).wf(),
        ensures
            final(self).wf(),
            match r {
                Ok(()) => {
                    &&& has_lobby(old(self)@, lobby_id)
                    &&& final(self)@.len() == old(self)@.len()
                    &&& (forall|j: int|
                        0 <= j < old(self)@.len() && j != idx_of(old(self)@, lobby_id)
                            ==> final(self)@[j] == old(self)@[j])
                    &&& {
                        let oldl = lobby_at(old(self)@, lobby_id);
                        let newl = final(self)@[idx_of(old(self)@, lobby_id)];
                        &&& oldl.same_but_whitelist(newl)
                        &&& match (oldl.whitelist, newl.whitelist) {
                            (Some(w0), Some(w1)) => ids_unique(w1) && (forall|x: Seq<char>|
                                id_in(w1, x) <==> (id_in(w0, x) && x != player_id@)),
                            (None, None) => true,
                            _ => false,
                        }
                    }
                },
                Err(ApiError::LobbyNotFound) => {
                    &&& final(self)@ == old(self)@
                    &&& !has_lobby(old(self)@, lobby_id)
                },
                Err(_) => false,
            },
    {
        let i = match self.find_idx(lobby_id) {
            Some(i) => i,
            None => {
                return Err(ApiError::LobbyNotFound);
            },
        };
        proof {
            lemma_lobby_at(self@, lobby_id, i as int);
            assert(self@[i as int] == self.lobbies[i as int]@);
        }
        let ghost pre = self@;
        let l = &mut self.lobbies[i];
        match &mut l.whitelist {
            Some(w) => {
                remove_id(w, player_id);
            },
            None => {},
        }
        proof {
            assert forall|j: int| 0 <= j < pre.len() && j != i implies self@[j] == pre[j] by {
                assert(self.lobbies@[j] == old(self).lobbies@[j]);
            }
            assert(self@[i as int] == self.lobbies[i as int]@);
            assert(self@[i as int].wf());
            lemma_wf_update(pre, self@, i as int);
        }
        Ok(())
    }
}

/// Replacing one lobby by a lobby with the same id moves no other
/// lobby: every id still finds the same lobby, and the changed id
/// finds the replacement.
pub proof fn lemma_lookup_after_update(pre: Seq<LobbyModel>, post: Seq<LobbyModel>, i: int)
    requires
        lobby_ids_unique(pre),
        post.len() == pre.len(),
        forall|j: int| 0 <= j < pre.len() && j != i ==> post[j] == pre[j],
        0 <= i < pre.len(),
        post[i].id == pre[i].id,
    ensures
        lobby_ids_unique(post),
        forall|l: u128| has_lobby(post, l) <==> has_lobby(pre, l),
        forall|l: u128|
            has_lobby(pre, l) && l != pre[i].id ==> lobby_at(post, l) == lobby_at(pre, l),
        lobby_at(post, pre[i].id) == post[i],
        idx_of(post, pre[i].id) == i,
        idx_of(pre, pre[i].id) == i,
{
    assert forall|a: int, b: int| 0 <= a < b < post.len() implies post[a].id != post[b].id by {
        assert(post[a].id == pre[a].id);
        assert(post[b].id == pre[b].id);
    }
    assert forall|l: u128| has_lobby(post, l) implies has_lobby(pre, l) by {
        let j = choose|j: int| 0 <= j < post.len() && post[j].id == l;
        assert(pre[j].id == l);
    }
    assert forall|l: u128| has_lobby(pre, l) implies has_lobby(post, l) by {
        let j = choose|j: int| 0 <= j < pre.len() && pre[j].id == l;
        assert(post[j].id == l);
    }
    assert forall|l: u128|
        has_lobby(pre, l) && l != pre[i].id implies lobby_at(post, l) == lobby_at(pre, l) by {
        let j = choose|j: int| 0 <= j < pre.len() && pre[j].id == l;
        lemma_lobby_at(pre, l, j);
        assert(post[j].id == l);
        lemma_lobby_at(post, l, j);
    }
    lemma_lobby_at(pre, pre[i].id, i);
    assert(post[i].id == pre[i].id);
    lemma_lobby_at(post, pre[i].id, i);
}

/// Appending a lobby with a fresh id moves no other lobby.
pub proof fn lemma_lookup_after_push(pre: Seq<LobbyModel>, l: LobbyModel)
    requires
        lobby_ids_unique(pre),
        !has_lobby(pre, l.id),
    ensures
        lobby_ids_unique(pre.push(l)),
        forall|x: u128| x != l.id ==> (has_lobby(pre.push(l), x) <==> has_lobby(pre, x)),
        forall|x: u128|
            has_lobby(pre, x) && x != l.id ==> lobby_at(pre.push(l), x) == lobby_at(pre, x),
        has_lobby(pre.push(l), l.id),
        lobby_at(pre.push(l), l.id) == l,
{
    let post = pre.push(l);
    assert forall|a: int, b: int| 0 <= a < b < post.len() implies post[a].id != post[b].id by {
        if b == post.len() - 1 {
            assert(post[a] == pre[a]);
            assert(has_lobby(pre, l.id) ==> false);
        } else {
            assert(post[a] == pre[a] && post[b] == pre[b]);
        }
    }
    assert forall|x: u128| x != l.id && has_lobby(post, x) implies has_lobby(pre, x) by {
        let j = choose|j: int| 0 <= j < post.len() && post[j].id == x;
        assert(j < pre.len());
        assert(pre[j].id == x);
    }
    assert forall|x: u128| has_lobby(pre, x) implies has_lobby(post, x) by {
        let j = choose|j: int| 0 <= j < pre.len() && pre[j].id == x;
        assert(post[j].id == x);
    }
    assert forall|x: u128|
        has_lobby(pre, x) && x != l.id implies lobby_at(post, x) == lobby_at(pre, x) by {
        let j = choose|j: int| 0 <= j < pre.len() && pre[j].id == x;
        lemma_lobby_at(pre, x, j);
        assert(post[j].id == x);
        lemma_lobby_at(post, x, j);
    }
    assert(post[post.len() - 1] == l);
    lemma_lobby_at(post, l.id, post.len() - 1);
}

/// Removing one lobby moves no other lobby.
pub proof fn lemma_lookup_after_remove(pre: Seq<LobbyModel>, i: int)
    requires
        lobby_ids_unique(pre),
        0 <= i < pre.len(),
    ensures
        lobby_ids_unique(pre.remove(i)),
        forall|x: u128| x != pre[i].id ==> (has_lobby(pre.remove(i), x) <==> has_lobby(pre, x)),
        forall|x: u128|
            has_lobby(pre, x) && x != pre[i].id ==> lobby_at(pre.remove(i), x) == lobby_at(
                pre,
                x,
            ),
        !has_lobby(pre.remove(i), pre[i].id),
{
    let post = pre.remove(i);
    assert forall|a: int, b: int| 0 <= a < b < post.len() implies post[a].id != post[b].id by {
        let a0 = if a < i {
            a
        } else {
            a + 1
        };
        let b0 = if b < i {
            b
        } else {
            b + 1
        };
        assert(post[a] == pre[a0] && post[b] == pre[b0]);
    }
    assert forall|x: u128| has_lobby(post, x) implies has_lobby(pre, x) by {
        let j = choose|j: int| 0 <= j < post.len() && post[j].id == x;
        let j0 = if j < i {
            j
        } else {
            j + 1
        };
        assert(pre[j0].id == x);
    }
    assert forall|x: u128| x != pre[i].id && has_lobby(pre, x) implies has_lobby(post, x) by {
        let j = choose|j: int| 0 <= j < pre.len() && pre[j].id == x;
        assert(j != i);
        if j < i {
            assert(post[j].id == x);
        } else {
            assert(post[j - 1].id == x);
        }
    }
    assert forall|x: u128|
        has_lobby(pre, x) && x != pre[i].id implies lobby_at(post, x) == lobby_at(pre, x) by {
        let j = choose|j: int| 0 <= j < pre.len() && pre[j].id == x;
        lemma_lobby_at(pre, x, j);
        assert(j != i);
        if j < i {
            assert(post[j].id == x);
            lemma_lobby_at(post, x, j);
        } else {
            assert(post[j - 1].id == x);
            lemma_lobby_at(post, x, j - 1);
        }
    }
    if has_lobby(post, pre[i].id) {
        let j = choose|j: int| 0 <= j < post.len() && post[j].id == pre[i].id;
        let j0 = if j < i {
            j
        } else {
            j + 1
        };
        assert(pre[j0].id == pre[i].id);
        assert(j0 != i);
    }
}

/// A row of a table names a key of the table.
pub proof fn lemma_pair_gives_key(s: crate::index::IdTable, k: Seq<char>, v: u128)
    requires
        pair_in(s, k, v),
    ensures
        key_in(s, k),
{
    let i = choose|i: int| 0 <= i < s.len() && s[i] == (k, v);
    assert(s[i].0 == k);
}

/// Replacing one lobby by a lobby with the same id and the same
/// members leaves the index agreement intact.
pub proof fn lemma_index_ok_after_update(
    lobbies0: Seq<LobbyModel>,
    lobbies1: Seq<LobbyModel>,
    i: int,
    index: IdTable,
)
    requires
        index_ok(lobbies0, index),
        lobby_ids_unique(lobbies0),
        lobbies1.len() == lobbies0.len(),
        forall|j: int| 0 <= j < lobbies0.len() && j != i ==> lobbies1[j] == lobbies0[j],
        0 <= i < lobbies0.len(),
        lobbies1[i].id == lobbies0[i].id,
        forall|x: Seq<char>|
            lobbies1[i].has_player(x) <==> lobbies0[i].has_player(x),
    ensures
        index_ok(lobbies1, index),
{
    lemma_lookup_after_update(lobbies0, lobbies1, i);
    assert forall|p: Seq<char>, l: u128| #[trigger]
        pair_in(index, p, l) implies has_lobby(lobbies1, l) && lobby_at(
        lobbies1,
        l,
    ).has_player(p) by {
        assert(has_lobby(lobbies0, l) && lobby_at(lobbies0, l).has_player(p));
        if l == lobbies0[i].id {
            lemma_lobby_at(lobbies0, l, i);
            assert(lobby_at(lobbies1, l) == lobbies1[i]);
        } else {
            assert(lobby_at(lobbies1, l) == lobby_at(lobbies0, l));
        }
    }
    assert forall|j: int, p: Seq<char>|
        0 <= j < lobbies1.len() && (#[trigger] lobbies1[j].has_player(p)) implies pair_in(
        index,
        p,
        lobbies1[j].id,
    ) by {
        if j == i {
            assert(lobbies0[i].has_player(p));
        } else {
            assert(lobbies1[j] == lobbies0[j]);
        }
    }
}

/// The player-to-lobby index agrees with the lobby table: a row maps a
/// player to a lobby exactly when that lobby exists and holds the
/// player.
pub open spec fn index_ok(lobbies: Seq<LobbyModel>, index: IdTable) -> bool {
    &&& forall|p: Seq<char>, l: u128| #[trigger]
        pair_in(index, p, l) ==> has_lobby(lobbies, l) && lobby_at(lobbies, l).has_player(p)
    &&& forall|i: int, p: Seq<char>|
        0 <= i < lobbies.len() && (#[trigger] lobbies[i].has_player(p)) ==> pair_in(
            index,
            p,
            lobbies[i].id,
        )
}

/// The shared state of the service: the lobby table, the challenge
/// store, and the three cross-indexes. Each request works on this
/// state under one lock; the invariant `inv` holds between requests.
pub struct ServerState {
    pub lobby_manager: LobbyManager,
    pub challenge_manager: ChallengeManager,
    /// Player identity -> id of the lobby the player belongs to.
    pub players_in_lobbies: IdIndex,
    /// Player identity -> handle of the player's live socket.
    pub players_to_peers: IdIndex,
    /// Socket origin -> player identity, between upgrade authorization
    /// and peer-handle assignment.
    pub waiting_players: OriginIndex,
}

impl ServerState {
    pub open spec fn lobbies(self) -> Seq<LobbyModel> {
        self.lobby_manager@
    }

    pub open spec fn index(self) -> IdTable {
        self.players_in_lobbies@
    }

    pub open spec fn peers(self) -> IdTable {
        self.players_to_peers@
    }

    pub open spec fn waiting(self) -> crate::index::StrTable {
        self.waiting_players@
    }

    pub open spec fn challenges(self) -> IdTable {
        self.challenge_manager@
    }

    /// The cross-cutting invariant: well-formed tables; each identity
    /// in at most one lobby, through the index agreement; and each
    /// peer handle held by at most one identity.
    pub open spec fn inv(self) -> bool {
        &&& self.lobby_manager.wf()
        &&& self.challenge_manager.wf()
        &&& self.players_in_lobbies.wf()
        &&& self.players_to_peers.wf()
        &&& vals_unique(self.peers())
        &&& self.waiting_players.wf()
        &&& index_ok(self.lobbies(), self.index())
    }

    /// True when the tables other than the lobby table and its index
    /// are unchanged between two states.
    pub open spec fn same_sessions(self, other: ServerState) -> bool {
        &&& other.peers() == self.peers()
        &&& other.waiting() == self.waiting()
        &&& other.challenges() == self.challenges()
    }
}

impl Default for ServerState {
    /// The empty state: no lobbies, no challenges, no sessions.
    fn default() -> (r: ServerState)
        ensures
            r.inv(),
            r.lobbies() =~= Seq::<LobbyModel>::empty(),
            r.index() =~= Seq::<(Seq<char>, u128)>::empty(),
            r.peers() =~= Seq::<(Seq<char>, u128)>::empty(),
            r.waiting() =~= Seq::<(Seq<char>, Seq<char>)>::empty(),
            r.challenges() =~= Seq::<(Seq<char>, u128)>::empty(),
    {
        ServerState {
            lobby_manager: LobbyManager::new(),
            challenge_manager: ChallengeManager::new(),
            players_in_lobbies: IdIndex::new(),
            players_to_peers: IdIndex::new(),
            waiting_players: OriginIndex::new(),
        }
    }
}

/// Law: an identity belongs to at most one lobby. Two lobbies that
/// both hold `p` are the same lobby.
pub proof fn lemma_player_in_at_most_one_lobby(s: ServerState, p: Seq<char>, i: int, j: int)
    requires
        s.inv(),
        0 <= i < s.lobbies().len(),
        0 <= j < s.lobbies().len(),
        s.lobbies()[i].has_player(p),
        s.lobbies()[j].has_player(p),
    ensures
        i == j,
{
    assert(pair_in(s.index(), p, s.lobbies()[i].id));
    assert(pair_in(s.index(), p, s.lobbies()[j].id));
    crate::index::lemma_key_determines_val(s.index(), p, s.lobbies()[i].id, s.lobbies()[j].id);
    if i != j {
        if i < j {
            assert(s.lobbies()[i].id != s.lobbies()[j].id);
        } else {
            assert(s.lobbies()[j].id != s.lobbies()[i].id);
        }
    }
}

/// Law: the index maps `p` to `l` exactly when the lobby `l` exists
/// and holds `p`.
pub proof fn lemma_membership_matches_index(s: ServerState, p: Seq<char>, l: u128)
    requires
        s.inv(),
    ensures
        pair_in(s.index(), p, l) <==> (has_lobby(s.lobbies(), l) && lobby_at(
            s.lobbies(),
            l,
        ).has_player(p)),
{
    if has_lobby(s.lobbies(), l) && lobby_at(s.lobbies(), l).has_player(p) {
        let i = idx_of(s.lobbies(), l);
        assert(s.lobbies()[i].has_player(p));
        assert(pair_in(s.index(), p, s.lobbies()[i].id));
    }
}

/// How a join call answers, and what it changes: rejoining one's own
/// lobby succeeds untouched; a player in another lobby is turned away;
/// an absent lobby and one no longer waiting look alike to the caller;
/// a whitelist admits only its members; and a fresh join adds exactly
/// one member and one index row.
pub open spec fn join_outcome(
    pre: ServerState,
    post: ServerState,
    lobby_id: u128,
    sub: Seq<char>,
    r: Result<(), ApiError>,
) -> bool {
    match r {
        Ok(()) => {
            ||| {
                &&& pair_in(pre.index(), sub, lobby_id)
                &&& post.lobbies() == pre.lobbies()
                &&& post.index() == pre.index()
            }
            ||| {
                &&& !key_in(pre.index(), sub)
                &&& has_lobby(pre.lobbies(), lobby_id)
                &&& lobby_at(pre.lobbies(), lobby_id).status == LobbyStatus::Waiting
                &&& lobby_at(pre.lobbies(), lobby_id).join_allowed_by_whitelist(sub)
                &&& post.lobbies().len() == pre.lobbies().len()
                &&& (forall|j: int|
                    0 <= j < pre.lobbies().len() && j != idx_of(pre.lobbies(), lobby_id)
                        ==> post.lobbies()[j] == pre.lobbies()[j])
                &&& lobby_at(pre.lobbies(), lobby_id).player_added(
                    post.lobbies()[idx_of(pre.lobbies(), lobby_id)],
                    sub,
                )
                &&& pair_in(post.index(), sub, lobby_id)
                &&& (forall|x: Seq<char>, y: u128|
                    x != sub ==> (pair_in(post.index(), x, y) <==> pair_in(pre.index(), x, y)))
            }
        },
        Err(ApiError::AlreadyInLobby) => {
            &&& key_in(pre.index(), sub)
            &&& !pair_in(pre.index(), sub, lobby_id)
            &&& post.lobbies() == pre.lobbies()
            &&& post.index() == pre.index()
        },
        Err(ApiError::LobbyNotFound) => {
            &&& !key_in(pre.index(), sub)
            &&& (!has_lobby(pre.lobbies(), lobby_id) || lobby_at(pre.lobbies(), lobby_id).status
                != LobbyStatus::Waiting)
            &&& post.lobbies() == pre.lobbies()
            &&& post.index() == pre.index()
        },
        Err(ApiError::NotInWhitelist) => {
            &&& !key_in(pre.index(), sub)
            &&& has_lobby(pre.lobbies(), lobby_id)
            &&& lobby_at(pre.lobbies(), lobby_id).status == LobbyStatus::Waiting
            &&& !lobby_at(pre.lobbies(), lobby_id).join_allowed_by_whitelist(sub)
            &&& post.lobbies() == pre.lobbies()
            &&& post.index() == pre.index()
        },
        Err(_) => false,
    }
}

/// Law: a lobby whose game is in progress accepts no new member --
/// to a joiner it looks exactly like an absent lobby. (An identity
/// already indexed somewhere is answered before the lobby is looked
/// at, so the law speaks of identities not yet in any lobby.)
pub proof fn lemma_join_in_progress_not_found(
    pre: ServerState,
    post: ServerState,
    lobby_id: u128,
    sub: Seq<char>,
    r: Result<(), ApiError>,
)
    requires
        join_outcome(pre, post, lobby_id, sub, r),
        !key_in(pre.index(), sub),
        has_lobby(pre.lobbies(), lobby_id),
        lobby_at(pre.lobbies(), lobby_id).status == LobbyStatus::InProgress,
    ensures
        r == Err::<(), ApiError>(ApiError::LobbyNotFound),
        post.lobbies() == pre.lobbies(),
        post.index() == pre.index(),
{
    match r {
        Ok(()) => {
            if pair_in(pre.index(), sub, lobby_id) {
                lemma_pair_gives_key(pre.index(), sub, lobby_id);
            }
        },
        Err(_) => {},
    }
}

/// Law: discovery round-trips with the visibility rule. Every lobby
/// the filter returns satisfies the visibility predicate for that
/// viewer, and every lobby satisfying it is returned.
pub proof fn lemma_discovery_visibility(m: Seq<LobbyModel>, viewer: Option<Seq<char>>)
    ensures
        forall|j: int|
            0 <= j < visible_filter(m, viewer).len() ==> (#[trigger] visible_filter(
                m,
                viewer,
            )[j]).visible_to(viewer),
        forall|i: int|
            0 <= i < m.len() && (#[trigger] m[i]).visible_to(viewer) ==> visible_filter(
                m,
                viewer,
            ).contains(m[i]),
{
    broadcast use vstd::seq_lib::group_filter_ensures;

}

impl ServerState {
    /// Creates a lobby for `claims_sub` unless they already belong to
    /// one, and indexes them as its first member.
    pub fn create_lobby(
        &mut self,
        claims_sub: PlayerId,
        is_private: bool,
        whitelist: Option<Vec<PlayerId>>,
    ) -> (r: Result<Lobby, ApiError>)
        requires
            old(self).inv(),
        ensures
            final(self).inv(),
            old(self).same_sessions(*final(self)),
            match r {
                Ok(l) => {
                    &&& !key_in(old(self).index(), claims_sub@)
                    &&& !has_lobby(old(self).lobbies(), l@.id)
                    &&& final(self).lobbies() == old(self).lobbies().push(l@)
                    &&& l@.owner == claims_sub@
                    &&& l@.players =~= seq![claims_sub@]
                    &&& l@.status == LobbyStatus::Waiting
                    &&& l@.is_private == is_private
                    &&& match (whitelist, l@.whitelist) {
                        (Some(w), Some(v)) => ids_unique(v) && (forall|x: Seq<char>|
                            id_in(v, x) <==> id_in(w.deep_view(), x)),
                        (None, None) => true,
                        _ => false,
                    }
                    &&& pair_in(final(self).index(), claims_sub@, l@.id)
                    &&& (forall|x: Seq<char>, y: u128|
                        x != claims_sub@ ==> (pair_in(final(self).index(), x, y) <==> pair_in(
                            old(self).index(),
                            x,
                            y,
                        )))
                },
                Err(ApiError::AlreadyInLobby) => {
                    &&& key_in(old(self).index(), claims_sub@)
                    &&& final(self).lobbies() == old(self).lobbies()
                    &&& final(self).index() == old(self).index()
                },
                Err(ApiError::InternalIssueFailed) => {
                    &&& !key_in(old(self).index(), claims_sub@)
                    &&& has_lobby(old(self).lobbies(), u128::MAX)
                    &&& final(self).lobbies() == old(self).lobbies()
                    &&& final(self).index() == old(self).index()
                },
                Err(_) => false,
            },
    {
        if self.players_in_lobbies.contains_key(&claims_sub) {
            return Err(ApiError::AlreadyInLobby);
        }
        let ghost lobbies0 = self.lobbies();
        let ghost index0 = self.index();
        let lobby = match self.lobby_manager.create_lobby_with_owner(
            is_private,
            claims_sub.clone(),
            whitelist,
        ) {
            Ok(l) => l,
            Err(_) => {
                return Err(ApiError::InternalIssueFailed);
            },
        };
        self.players_in_lobbies.set(claims_sub, lobby.id);
        proof {
            let l = lobby@;
            let lobbies1 = self.lobbies();
            let index1 = self.index();
            lemma_lookup_after_push(lobbies0, l);
            assert forall|p: Seq<char>, v: u128| #[trigger]
                pair_in(index1, p, v) implies has_lobby(lobbies1, v) && lobby_at(
                lobbies1,
                v,
            ).has_player(p) by {
                if p == l.owner && v == l.id {
                    assert(lobby_at(lobbies1, l.id) == l);
                    assert(l.players[0] == l.owner);
                } else {
                    assert(pair_in(index0, p, v) || (p == l.owner && v == l.id));
                    assert(pair_in(index0, p, v));
                    assert(has_lobby(lobbies0, v) && lobby_at(lobbies0, v).has_player(p));
                    assert(v != l.id);
                }
            }
            assert forall|i: int, p: Seq<char>|
                0 <= i < lobbies1.len() && (#[trigger] lobbies1[i].has_player(p)) implies pair_in(
                index1,
                p,
                lobbies1[i].id,
            ) by {
                if i < lobbies0.len() {
                    assert(lobbies1[i] == lobbies0[i]);
                    assert(pair_in(index0, p, lobbies0[i].id));
                    if p == l.owner {
                        lemma_pair_gives_key(index0, p, lobbies0[i].id);
                    }
                    assert(p != l.owner);
                } else {
                    assert(lobbies1[i] == l);
                    let j = choose|j: int| 0 <= j < l.players.len() && l.players[j] == p;
                    assert(l.players[0] == l.owner);
                    assert(p == l.owner);
                }
            }
        }
        Ok(lobby)
    }

    /// The lobbies `viewer` may discover: exactly those the visibility
    /// rule admits.
    pub fn list_lobbies(&self, viewer: Option<PlayerId>) -> (r: Vec<Lobby>)
        ensures
            r.deep_view() == visible_filter(self.lobbies(), viewer.deep_view()),
    {
        self.lobby_manager.get_lobbies_for_player(viewer)
    }

    /// Joins `claims_sub` to the lobby `lobby_id`. Rejoining one's own
    /// lobby succeeds and changes nothing; a player in another lobby
    /// is turned away; an absent lobby and one no longer waiting look
    /// alike to the caller; a whitelist admits only its members.
    pub fn join_lobby(&mut self, lobby_id: u128, claims_sub: PlayerId) -> (r: Result<
        (),
        ApiError,
    >)
        requires
            old(self).inv(),
        ensures
            final(self).inv(),
            old(self).same_sessions(*final(self)),
            join_outcome(*old(self), *final(self), lobby_id, claims_sub@, r),
    {
        match self.players_in_lobbies.get(&claims_sub) {
            Some(existing) => {
                if existing == lobby_id {
                    return Ok(());
                }
                proof {
                    lemma_pair_gives_key(self.index(), claims_sub@, existing);
                    if pair_in(self.index(), claims_sub@, lobby_id) {
                        crate::index::lemma_key_determines_val(
                            self.index(),
                            claims_sub@,
                            existing,
                            lobby_id,
                        );
                    }
                }
                return Err(ApiError::AlreadyInLobby);
            },
            None => {},
        }
        let ghost lobbies0 = self.lobbies();
        let ghost index0 = self.index();
        match self.lobby_manager.add_player_to_lobby(lobby_id, claims_sub.clone()) {
            Ok(()) => {},
            Err(e) => {
                return Err(e);
            },
        }
        let ghost i = idx_of(lobbies0, lobby_id);
        self.players_in_lobbies.set(claims_sub, lobby_id);
        proof {
            let lobbies1 = self.lobbies();
            let index1 = self.index();
            let p = claims_sub@;
            lemma_lookup_after_update(lobbies0, lobbies1, i);
            assert(lobbies0[i].id == lobby_id);
            assert(lobby_at(lobbies1, lobby_id) == lobbies1[i]);
            assert forall|q: Seq<char>, v: u128| #[trigger]
                pair_in(index1, q, v) implies has_lobby(lobbies1, v) && lobby_at(
                lobbies1,
                v,
            ).has_player(q) by {
                if q == p && v == lobby_id {
                    assert(lobbies1[i].has_player(p));
                } else {
                    assert(pair_in(index0, q, v) || (q == p && v == lobby_id));
                    if q == p {
                        lemma_pair_gives_key(index0, q, v);
                        assert(false);
                    } else {
                        assert(has_lobby(lobbies0, v) && lobby_at(lobbies0, v).has_player(q));
                        if v == lobby_id {
                            assert(lobby_at(lobbies0, lobby_id).has_player(q));
                            assert(lobbies1[i].has_player(q));
                        } else {
                            assert(lobby_at(lobbies1, v) == lobby_at(lobbies0, v));
                        }
                    }
                }
            }
            assert forall|j: int, q: Seq<char>|
                0 <= j < lobbies1.len() && (#[trigger] lobbies1[j].has_player(q)) implies pair_in(
                index1,
                q,
                lobbies1[j].id,
            ) by {
                if j == i {
                    if q == p {
                        assert(pair_in(index1, p, lobby_id));
                    } else {
                        assert(lobbies0[i].has_player(q));
                        assert(pair_in(index0, q, lobbies0[i].id));
                    }
                } else {
                    assert(lobbies1[j] == lobbies0[j]);
                    assert(pair_in(index0, q, lobbies0[j].id));
                    if q == p {
                        lemma_pair_gives_key(index0, q, lobbies0[j].id);
                        assert(false);
                    }
                }
            }
        }
        Ok(())
    }

    /// Handles DELETE on a lobby. The owner deletes the lobby outright
    /// and every member's index entry with it; anyone else merely
    /// leaves: their membership and index entry go, the lobby stays.
    /// A leave by someone who is not a member changes nothing.
    pub fn delete_lobby(&mut self, lobby_id: u128, claims_sub: &PlayerId) -> (r: Result<
        (),
        ApiError,
    >)
        requires
            old(self).inv(),
        ensures
            final(self).inv(),
            old(self).same_sessions(*final(self)),
            match r {
                Ok(()) => {
                    &&& has_lobby(old(self).lobbies(), lobby_id)
                    &&& if lobby_at(old(self).lobbies(), lobby_id).owner == claims_sub@ {
                        &&& final(self).lobbies() == old(self).lobbies().remove(
                            idx_of(old(self).lobbies(), lobby_id),
                        )
                        &&& (forall|x: Seq<char>, y: u128|
                            pair_in(final(self).index(), x, y) <==> (pair_in(
                                old(self).index(),
                                x,
                                y,
                            ) && y != lobby_id))
                    } else {
                        if pair_in(old(self).index(), claims_sub@, lobby_id) {
                            &&& final(self).lobbies().len() == old(self).lobbies().len()
                            &&& (forall|j: int|
                                0 <= j < old(self).lobbies().len() && j != idx_of(
                                    old(self).lobbies(),
                                    lobby_id,
                                ) ==> final(self).lobbies()[j] == old(self).lobbies()[j])
                            &&& lobby_at(old(self).lobbies(), lobby_id).player_removed(
                                final(self).lobbies()[idx_of(old(self).lobbies(), lobby_id)],
                                claims_sub@,
                            )
                            &&& !key_in(final(self).index(), claims_sub@)
                            &&& (forall|x: Seq<char>, y: u128|
                                x != claims_sub@ ==> (pair_in(final(self).index(), x, y)
                                    <==> pair_in(old(self).index(), x, y)))
                        } else {
                            &&& final(self).lobbies() == old(self).lobbies()
                            &&& final(self).index() == old(self).index()
                        }
                    }
                },
                Err(ApiError::LobbyNotFound) => {
                    &&& !has_lobby(old(self).lobbies(), lobby_id)
                    &&& final(self).lobbies() == old(self).lobbies()
                    &&& final(self).index() == old(self).index()
                },
                Err(_) => false,
            },
    {
        let lobby = match self.lobby_manager.get_lobby(lobby_id) {
            Some(l) => l,
            None => {
                return Err(ApiError::LobbyNotFound);
            },
        };
        let ghost lobbies0 = self.lobbies();
        let ghost index0 = self.index();
        let ghost i = idx_of(lobbies0, lobby_id);
        if lobby.owner == *claims_sub {
            let res = self.lobby_manager.delete_lobby(lobby_id);
            proof {
                assert(res is Ok);
            }
            self.players_in_lobbies.remove_by_val(lobby_id);
            proof {
                let lobbies1 = self.lobbies();
                let index1 = self.index();
                lemma_lookup_after_remove(lobbies0, i);
                assert(lobbies0[i].id == lobby_id);
                assert forall|p: Seq<char>, v: u128| #[trigger]
                    pair_in(index1, p, v) implies has_lobby(lobbies1, v) && lobby_at(
                    lobbies1,
                    v,
                ).has_player(p) by {
                    assert(pair_in(index0, p, v) && v != lobby_id);
                    assert(has_lobby(lobbies0, v) && lobby_at(lobbies0, v).has_player(p));
                }
                assert forall|j: int, p: Seq<char>|
                    0 <= j < lobbies1.len() && (#[trigger] lobbies1[j].has_player(p)) implies
                    pair_in(index1, p, lobbies1[j].id) by {
                    let j0 = if j < i {
                        j
                    } else {
                        j + 1
                    };
                    assert(lobbies1[j] == lobbies0[j0]);
                    assert(pair_in(index0, p, lobbies0[j0].id));
                    assert(j0 != i);
                    if j0 < i {
                        assert(lobbies0[j0].id != lobbies0[i].id);
                    } else {
                        assert(lobbies0[i].id != lobbies0[j0].id);
                    }
                }
            }
            Ok(())
        } else {
            let member_here = match self.players_in_lobbies.get(claims_sub) {
                Some(l) => {
                    proof {
                        if l != lobby_id && pair_in(index0, claims_sub@, lobby_id) {
                            crate::index::lemma_key_determines_val(
                                index0,
                                claims_sub@,
                                l,
                                lobby_id,
                            );
                        }
                    }
                    l == lobby_id
                },
                None => {
                    proof {
                        if pair_in(index0, claims_sub@, lobby_id) {
                            lemma_pair_gives_key(index0, claims_sub@, lobby_id);
                        }
                    }
                    false
                },
            };
            if member_here {
                self.lobby_manager.remove_player_from_lobby(lobby_id, claims_sub);
                self.players_in_lobbies.remove(claims_sub);
                proof {
                    let lobbies1 = self.lobbies();
                    let index1 = self.index();
                    let p = claims_sub@;
                    lemma_lobby_at(lobbies0, lobby_id, i);
                    lemma_lookup_after_update(lobbies0, lobbies1, i);
                    assert forall|q: Seq<char>, v: u128| #[trigger]
                        pair_in(index1, q, v) implies has_lobby(lobbies1, v) && lobby_at(
                        lobbies1,
                        v,
                    ).has_player(q) by {
                        assert(pair_in(index0, q, v));
                        lemma_pair_gives_key(index1, q, v);
                        assert(q != p);
                        assert(has_lobby(lobbies0, v) && lobby_at(lobbies0, v).has_player(q));
                        if v == lobby_id {
                            assert(lobbies0[i].has_player(q));
                            assert(lobbies1[i].has_player(q));
                            assert(lobby_at(lobbies1, v) == lobbies1[i]);
                        } else {
                            assert(lobby_at(lobbies1, v) == lobby_at(lobbies0, v));
                        }
                    }
                    assert forall|j: int, q: Seq<char>|
                        0 <= j < lobbies1.len() && (#[trigger] lobbies1[j].has_player(q)) implies
                        pair_in(index1, q, lobbies1[j].id) by {
                        if j == i {
                            assert(lobbies0[i].has_player(q) && q != p);
                            assert(pair_in(index0, q, lobbies0[i].id));
                        } else {
                            assert(lobbies1[j] == lobbies0[j]);
                            assert(pair_in(index0, q, lobbies0[j].id));
                            if q == p {
                                crate::index::lemma_key_determines_val(
                                    index0,
                                    p,
                                    lobbies0[j].id,
                                    lobby_id,
                                );
                                assert(lobbies0[j].id == lobbies0[i].id);
                                if j < i {
                                    assert(lobbies0[j].id != lobbies0[i].id);
                                } else {
                                    assert(lobbies0[i].id != lobbies0[j].id);
                                }
                            }
                        }
                    }
                }
                Ok(())
            } else {
                Ok(())
            }
        }
    }

    /// Invites players to a lobby: only the owner may, and the named
    /// identities are unioned into the whitelist (created if absent).
    pub fn invite_to_lobby(
        &mut self,
        lobby_id: u128,
        claims_sub: &PlayerId,
        player_public_keys: Vec<PlayerId>,
    ) -> (r: Result<(), ApiError>)
        requires
            old(self).inv(),
        ensures
            final(self).inv(),
            old(self).same_sessions(*final(self)),
            final(self).index() == old(self).index(),
            match r {
                Ok(()) => {
                    &&& has_lobby(old(self).lobbies(), lobby_id)
                    &&& lobby_at(old(self).lobbies(), lobby_id).owner == claims_sub@
                    &&& final(self).lobbies().len() == old(self).lobbies().len()
                    &&& (forall|j: int|
                        0 <= j < old(self).lobbies().len() && j != idx_of(
                            old(self).lobbies(),
                            lobby_id,
                        ) ==> final(self).lobbies()[j] == old(self).lobbies()[j])
                    &&& {
                        let oldl = lobby_at(old(self).lobbies(), lobby_id);
                        let newl = final(self).lobbies()[idx_of(old(self).lobbies(), lobby_id)];
                        &&& oldl.same_but_whitelist(newl)
                        &&& newl.whitelist matches Some(w) && ids_unique(w) && (forall|
                            x: Seq<char>,
                        |
                            id_in(w, x) <==> (oldl.whitelisted(x) || id_in(
                                player_public_keys.deep_view(),
                                x,
                            )))
                    }
                },
                Err(ApiError::LobbyNotFound) => {
                    &&& !has_lobby(old(self).lobbies(), lobby_id)
                    &&& final(self).lobbies() == old(self).lobbies()
                },
                Err(ApiError::NotOwner) => {
                    &&& has_lobby(old(self).lobbies(), lobby_id)
                    &&& lobby_at(old(self).lobbies(), lobby_id).owner != claims_sub@
                    &&& final(self).lobbies() == old(self).lobbies()
                },
                Err(_) => false,
            },
    {
        let lobby = match self.lobby_manager.get_lobby(lobby_id) {
            Some(l) => l,
            None => {
                return Err(ApiError::LobbyNotFound);
            },
        };
        if !(lobby.owner == *claims_sub) {
            return Err(ApiError::NotOwner);
        }
        let ghost lobbies0 = self.lobbies();
        let ghost i = idx_of(lobbies0, lobby_id);
        let res = self.lobby_manager.add_to_whitelist(lobby_id, player_public_keys);
        proof {
            assert(res is Ok);
            let lobbies1 = self.lobbies();
            assert(lobbies0[i].id == lobby_id) by {
                lemma_lobby_at(lobbies0, lobby_id, idx_of(lobbies0, lobby_id));
            }
            assert forall|x: Seq<char>|
                lobbies1[i].has_player(x) <==> lobbies0[i].has_player(x) by {
                assert(lobby_at(lobbies0, lobby_id) == lobbies0[i]);
            }
            lemma_index_ok_after_update(lobbies0, lobbies1, i, self.index());
        }
        Ok(())
    }

    /// The login decision at time `now_ms`: consume the challenge,
    /// check the signature over it, and mint a token. A challenge that
    /// is absent or stale is rejected untouched; a consumed challenge
    /// stays consumed even when the signature then fails, so the same
    /// challenge can never be used twice.
    pub fn login_at(
        &mut self,
        public_key_b64: &String,
        username: &String,
        challenge: &String,
        signature_b64: &String,
        secret: &crate::auth::AuthSecret,
        now_ms: u64,
    ) -> (r: Result<String, ApiError>)
        requires
            old(self).inv(),
        ensures
            final(self).inv(),
            final(self).lobbies() == old(self).lobbies(),
            final(self).index() == old(self).index(),
            final(self).peers() == old(self).peers(),
            final(self).waiting() == old(self).waiting(),
            match r {
                Ok(t) => {
                    &&& exists|ts: u128| #[trigger]
                        pair_in(old(self).challenges(), challenge@, ts)
                            && crate::auth::challenge_fresh(ts, now_ms)
                    &&& !key_in(final(self).challenges(), challenge@)
                    &&& (forall|x: Seq<char>, y: u128|
                        x != challenge@ ==> (pair_in(final(self).challenges(), x, y) <==> pair_in(
                            old(self).challenges(),
                            x,
                            y,
                        )))
                    &&& crate::auth::signature_accepted(
                        public_key_b64@,
                        vstd::utf8::encode_utf8(challenge@),
                        signature_b64@,
                    )
                    &&& t@ == crate::auth::jwt_of(
                        public_key_b64@,
                        username@,
                        crate::auth::token_exp((now_ms / 1000) as u64),
                        secret.0@,
                    )
                },
                Err(ApiError::InvalidChallenge) => {
                    &&& !(exists|ts: u128| #[trigger]
                        pair_in(old(self).challenges(), challenge@, ts)
                            && crate::auth::challenge_fresh(ts, now_ms))
                    &&& final(self).challenges() == old(self).challenges()
                },
                Err(ApiError::InvalidSignature) => {
                    &&& exists|ts: u128| #[trigger]
                        pair_in(old(self).challenges(), challenge@, ts)
                            && crate::auth::challenge_fresh(ts, now_ms)
                    &&& !key_in(final(self).challenges(), challenge@)
                    &&& (forall|x: Seq<char>, y: u128|
                        x != challenge@ ==> (pair_in(final(self).challenges(), x, y) <==> pair_in(
                            old(self).challenges(),
                            x,
                            y,
                        )))
                    &&& !crate::auth::signature_accepted(
                        public_key_b64@,
                        vstd::utf8::encode_utf8(challenge@),
                        signature_b64@,
                    )
                },
                Err(_) => false,
            },
    {
        let consumed = self.challenge_manager.verify_challenge_at(challenge, now_ms);
        proof {
            if consumed {
                let ts = choose|t: u128| #[trigger]
                    pair_in(old(self).challenge_manager@, challenge@, t)
                        && crate::auth::challenge_fresh(t, now_ms);
                assert(pair_in(old(self).challenges(), challenge@, ts));
            } else {
                if exists|t: u128| #[trigger] pair_in(old(self).challenges(), challenge@, t)
                    && crate::auth::challenge_fresh(t, now_ms) {
                    let ts = choose|t: u128| #[trigger]
                        pair_in(old(self).challenges(), challenge@, t)
                            && crate::auth::challenge_fresh(t, now_ms);
                    assert(pair_in(old(self).challenge_manager@, challenge@, ts));
                    assert(false);
                }
            }
        }
        if !consumed {
            return Err(ApiError::InvalidChallenge);
        }
        if !crate::auth::verify_signature(
            public_key_b64.as_str(),
            challenge.as_str(),
            signature_b64.as_str(),
        ) {
            return Err(ApiError::InvalidSignature);
        }
        let now_secs = now_ms / 1000;
        assert(now_secs <= u64::MAX - crate::auth::TOKEN_LIFETIME_SECS) by {
            assert(now_secs <= u64::MAX / 1000);
        };
        match crate::auth::issue_jwt_at(public_key_b64, username, secret, now_secs) {
            Ok(t) => Ok(t),
            Err(_) => Err(ApiError::InternalIssueFailed),
        }
    }

    /// The login decision against the wall clock. Whatever the clock
    /// says: a successful login consumed exactly this challenge and
    /// carried a signature the key accepts; a rejected challenge
    /// leaves the store untouched.
    pub fn login(
        &mut self,
        public_key_b64: &String,
        username: &String,
        challenge: &String,
        signature_b64: &String,
        secret: &crate::auth::AuthSecret,
    ) -> (r: Result<String, ApiError>)
        requires
            old(self).inv(),
        ensures
            final(self).inv(),
            final(self).lobbies() == old(self).lobbies(),
            final(self).index() == old(self).index(),
            final(self).peers() == old(self).peers(),
            final(self).waiting() == old(self).waiting(),
            match r {
                Ok(t) => {
                    &&& key_in(old(self).challenges(), challenge@)
                    &&& !key_in(final(self).challenges(), challenge@)
                    &&& crate::auth::signature_accepted(
                        public_key_b64@,
                        vstd::utf8::encode_utf8(challenge@),
                        signature_b64@,
                    )
                    &&& exists|e: u64|
                        t@ == crate::auth::jwt_of(public_key_b64@, username@, e, secret.0@)
                },
                Err(ApiError::InvalidChallenge) => final(self).challenges() == old(
                    self,
                ).challenges(),
                Err(ApiError::InvalidSignature) => {
                    &&& key_in(old(self).challenges(), challenge@)
                    &&& !key_in(final(self).challenges(), challenge@)
                    &&& !crate::auth::signature_accepted(
                        public_key_b64@,
                        vstd::utf8::encode_utf8(challenge@),
                        signature_b64@,
                    )
                },
                Err(_) => false,
            },
            !key_in(old(self).challenges(), challenge@) ==> r == Err::<String, ApiError>(
                ApiError::InvalidChallenge,
            ),
    {
        let now = crate::auth::clock_millis();
        let r = self.login_at(public_key_b64, username, challenge, signature_b64, secret, now);
        proof {
            if r is Ok || r == Err::<String, ApiError>(ApiError::InvalidSignature) {
                let ts = choose|ts: u128| #[trigger]
                    pair_in(old(self).challenges(), challenge@, ts)
                        && crate::auth::challenge_fresh(ts, now);
                lemma_pair_gives_key(old(self).challenges(), challenge@, ts);
            }
            if r is Ok {
                let e = crate::auth::token_exp((now / 1000) as u64);
                assert((r->Ok_0)@ == crate::auth::jwt_of(public_key_b64@, username@, e, secret.0@));
            }
        }
        r
    }

    /// Drops a player's live connection, keeping their lobby
    /// membership so they can reconnect into the same lobby.
    pub fn remove_connection_only(&mut self, player_id: &PlayerId)
        requires
            old(self).inv(),
        ensures
            final(self).inv(),
            final(self).lobbies() == old(self).lobbies(),
            final(self).index() == old(self).index(),
            final(self).waiting() == old(self).waiting(),
            final(self).challenges() == old(self).challenges(),
            !key_in(final(self).peers(), player_id@),
            forall|x: Seq<char>, y: u128|
                x != player_id@ ==> (pair_in(final(self).peers(), x, y) <==> pair_in(
                    old(self).peers(),
                    x,
                    y,
                )),
    {
        self.players_to_peers.remove(player_id);
        proof {
            lemma_vals_unique_shrink(old(self).peers(), self.peers());
        }
    }

    /// Removes a player from the server: their connection goes, and --
    /// unless they own their lobby, which only a delete dissolves --
    /// so do their membership and index entry.
    pub fn remove_player(&mut self, player_id: &PlayerId)
        requires
            old(self).inv(),
        ensures
            final(self).inv(),
            final(self).waiting() == old(self).waiting(),
            final(self).challenges() == old(self).challenges(),
            !key_in(final(self).peers(), player_id@),
            forall|x: Seq<char>, y: u128|
                x != player_id@ ==> (pair_in(final(self).peers(), x, y) <==> pair_in(
                    old(self).peers(),
                    x,
                    y,
                )),
            !key_in(old(self).index(), player_id@) ==> final(self).lobbies() == old(
                self,
            ).lobbies() && final(self).index() == old(self).index(),
            forall|l: u128|
                pair_in(old(self).index(), player_id@, l) ==> if lobby_at(
                    old(self).lobbies(),
                    l,
                ).owner == player_id@ {
                    final(self).lobbies() == old(self).lobbies() && final(self).index() == old(
                        self,
                    ).index()
                } else {
                    &&& !key_in(final(self).index(), player_id@)
                    &&& (forall|x: Seq<char>, y: u128|
                        x != player_id@ ==> (pair_in(final(self).index(), x, y) <==> pair_in(
                            old(self).index(),
                            x,
                            y,
                        )))
                    &&& final(self).lobbies().len() == old(self).lobbies().len()
                    &&& (forall|j: int|
                        0 <= j < old(self).lobbies().len() && j != idx_of(old(self).lobbies(), l)
                            ==> final(self).lobbies()[j] == old(self).lobbies()[j])
                    &&& lobby_at(old(self).lobbies(), l).player_removed(
                        final(self).lobbies()[idx_of(old(self).lobbies(), l)],
                        player_id@,
                    )
                },
    {
        self.players_to_peers.remove(player_id);
        proof {
            lemma_vals_unique_shrink(old(self).peers(), self.peers());
        }
        let lobby_id = match self.players_in_lobbies.get(player_id) {
            Some(l) => l,
            None => {
                proof {
                    assert forall|l: u128|
                        pair_in(old(self).index(), player_id@, l) implies false by {
                        lemma_pair_gives_key(old(self).index(), player_id@, l);
                    }
                }
                return ;
            },
        };
        proof {
            assert forall|l: u128|
                pair_in(old(self).index(), player_id@, l) implies l == lobby_id by {
                crate::index::lemma_key_determines_val(
                    old(self).index(),
                    player_id@,
                    l,
                    lobby_id,
                );
            }
        }
        let ghost lobbies0 = self.lobbies();
        let ghost index0 = self.index();
        let ghost i = idx_of(lobbies0, lobby_id);
        let lobby = match self.lobby_manager.get_lobby(lobby_id) {
            Some(l) => l,
            None => {
                proof {
                    assert(pair_in(self.index(), player_id@, lobby_id));
                    assert(has_lobby(self.lobbies(), lobby_id));
                }
                vstd::pervasive::unreached()
            },
        };
        if lobby.owner == *player_id {
            proof {
                lemma_lobby_at(lobbies0, lobby_id, idx_of(lobbies0, lobby_id));
            }
            return ;
        }
        self.lobby_manager.remove_player_from_lobby(lobby_id, player_id);
        self.players_in_lobbies.remove(player_id);
        proof {
            let lobbies1 = self.lobbies();
            let index1 = self.index();
            let p = player_id@;
            lemma_lobby_at(lobbies0, lobby_id, i);
            lemma_lookup_after_update(lobbies0, lobbies1, i);
            assert forall|q: Seq<char>, v: u128| #[trigger]
                pair_in(index1, q, v) implies has_lobby(lobbies1, v) && lobby_at(
                lobbies1,
                v,
            ).has_player(q) by {
                assert(pair_in(index0, q, v));
                lemma_pair_gives_key(index1, q, v);
                assert(q != p);
                assert(has_lobby(lobbies0, v) && lobby_at(lobbies0, v).has_player(q));
                if v == lobby_id {
                    assert(lobbies0[i].has_player(q));
                    assert(lobbies1[i].has_player(q));
                    assert(lobby_at(lobbies1, v) == lobbies1[i]);
                } else {
                    assert(lobby_at(lobbies1, v) == lobby_at(lobbies0, v));
                }
            }
            assert forall|j: int, q: Seq<char>|
                0 <= j < lobbies1.len() && (#[trigger] lobbies1[j].has_player(q)) implies pair_in(
                index1,
                q,
                lobbies1[j].id,
            ) by {
                if j == i {
                    assert(lobbies0[i].has_player(q) && q != p);
                    assert(pair_in(index0, q, lobbies0[i].id));
                } else {
                    assert(lobbies1[j] == lobbies0[j]);
                    assert(pair_in(index0, q, lobbies0[j].id));
                    if q == p {
                        crate::index::lemma_key_determines_val(
                            index0,
                            p,
                            lobbies0[j].id,
                            lobby_id,
                        );
                        if j < i {
                            assert(lobbies0[j].id != lobbies0[i].id);
                        } else {
                            assert(lobbies0[i].id != lobbies0[j].id);
                        }
                    }
                }
            }
        }
    }
}

/// Dropping rows never makes two values collide.
pub proof fn lemma_vals_unique_shrink(pre: IdTable, post: IdTable)
    requires
        vals_unique(pre),
        keys_unique(pre),
        keys_unique(post),
        forall|x: Seq<char>, y: u128| pair_in(post, x, y) ==> pair_in(pre, x, y),
    ensures
        vals_unique(post),
{
    assert forall|a: int, b: int| 0 <= a < b < post.len() implies post[a].1 != post[b].1 by {
        assert(pair_in(post, post[a].0, post[a].1));
        assert(pair_in(post, post[b].0, post[b].1));
        assert(pair_in(pre, post[a].0, post[a].1));
        assert(pair_in(pre, post[b].0, post[b].1));
        let ia = choose|i: int| 0 <= i < pre.len() && pre[i] == (post[a].0, post[a].1);
        let ib = choose|i: int| 0 <= i < pre.len() && pre[i] == (post[b].0, post[b].1);
        if post[a].1 == post[b].1 {
            if ia < ib {
                assert(pre[ia].1 != pre[ib].1);
            } else if ib < ia {
                assert(pre[ib].1 != pre[ia].1);
            } else {
                assert(post[a].0 == post[b].0);
            }
        }
    }
}

} // verus!
