//! Lobby data model: a lobby is a set of player identities with an
//! owner, a lifecycle status, and visibility rules.

use vstd::prelude::*;

verus! {

/// A player identity: the Base64 encoding of the player's Ed25519
/// public key. The public key is the stable player id; usernames are
/// advisory only.
pub type PlayerId = String;

/// A player, as carried in request and response bodies.
#[derive(Debug, Clone)]
pub struct Player {
    pub id: PlayerId,
}

/// Lifecycle status of a lobby. `Waiting` accepts joins; `InProgress`
/// does not.
#[derive(Debug, Clone, Copy, PartialEq, Eq, Structural)]
pub enum LobbyStatus {
    Waiting,
    InProgress,
}

/// A lobby: an owner, the set of member identities (always including
/// the owner), a status, and visibility controls.
#[derive(Debug)]
pub struct Lobby {
    /// Unique opaque 128-bit identifier.
    pub id: u128,
    /// Identity of the creator.
    pub owner: PlayerId,
    /// Current members. Unordered; uniqueness is an invariant.
    pub players: Vec<PlayerId>,
    pub status: LobbyStatus,
    /// Private lobbies are hidden from discovery except for their
    /// owner, their members, and whitelisted identities.
    pub is_private: bool,
    /// If present, join is permitted only for identities in this set.
    /// If absent on a private lobby, nobody can join without an invite.
    pub whitelist: Option<Vec<PlayerId>>,
}

/// The mathematical value of a lobby: identities as character
/// sequences, membership as occurrence in a sequence.
pub struct LobbyModel {
    pub id: u128,
    pub owner: Seq<char>,
    pub players: Seq<Seq<char>>,
    pub status: LobbyStatus,
    pub is_private: bool,
    pub whitelist: Option<Seq<Seq<char>>>,
}

impl View for Lobby {
    type V = LobbyModel;

    open spec fn view(&self) -> LobbyModel {
        LobbyModel {
            id: self.id,
            owner: self.owner@,
            players: self.players.deep_view(),
            status: self.status,
            is_private: self.is_private,
            whitelist: match self.whitelist {
                Some(w) => Some(w.deep_view()),
                None => None,
            },
        }
    }
}

impl DeepView for Lobby {
    type V = LobbyModel;

    open spec fn deep_view(&self) -> LobbyModel {
        self.view()
    }
}

/// True when `x` occurs in the sequence of identities `s`.
pub open spec fn id_in(s: Seq<Seq<char>>, x: Seq<char>) -> bool {
    exists|i: int| 0 <= i < s.len() && s[i] == x
}

/// True when `s` holds no identity twice.
pub open spec fn ids_unique(s: Seq<Seq<char>>) -> bool {
    forall|i: int, j: int| 0 <= i < j < s.len() ==> s[i] != s[j]
}

impl LobbyModel {
    /// True when `p` is a member of this lobby.
    pub open spec fn has_player(self, p: Seq<char>) -> bool {
        id_in(self.players, p)
    }

    /// True when this lobby has a whitelist and `p` is on it.
    pub open spec fn whitelisted(self, p: Seq<char>) -> bool {
        match self.whitelist {
            Some(w) => id_in(w, p),
            None => false,
        }
    }

    /// True when join is not barred by the whitelist: either there is
    /// no whitelist, or `p` is on it.
    pub open spec fn join_allowed_by_whitelist(self, p: Seq<char>) -> bool {
        match self.whitelist {
            Some(w) => id_in(w, p),
            None => true,
        }
    }

    /// Well-formedness: members are unique, the owner is a member, and
    /// the whitelist (when present) holds no identity twice.
    pub open spec fn wf(self) -> bool {
        &&& ids_unique(self.players)
        &&& self.has_player(self.owner)
        &&& match self.whitelist {
            Some(w) => ids_unique(w),
            None => true,
        }
    }

    /// The discovery visibility rule: a lobby is shown to `viewer` when
    /// it is a public lobby still waiting for players, or the viewer is
    /// one of its members, or it is private and the viewer is
    /// whitelisted. Anonymous viewers see only waiting public lobbies.
    pub open spec fn visible_to(self, viewer: Option<Seq<char>>) -> bool {
        ||| (!self.is_private && self.status == LobbyStatus::Waiting)
        ||| (viewer matches Some(p) && self.has_player(p))
        ||| (self.is_private && (viewer matches Some(p) && self.whitelisted(p)))
    }

    /// All fields except the member set, compared.
    pub open spec fn same_but_players(self, other: LobbyModel) -> bool {
        &&& other.id == self.id
        &&& other.owner == self.owner
        &&& other.status == self.status
        &&& other.is_private == self.is_private
        &&& other.whitelist == self.whitelist
    }

    /// All fields except the whitelist, compared.
    pub open spec fn same_but_whitelist(self, other: LobbyModel) -> bool {
        &&& other.id == self.id
        &&& other.owner == self.owner
        &&& other.players == self.players
        &&& other.status == self.status
        &&& other.is_private == self.is_private
    }

    /// `other` is this lobby with `p` now a member: membership differs
    /// only at `p`, and stays duplicate-free.
    pub open spec fn player_added(self, other: LobbyModel, p: Seq<char>) -> bool {
        &&& self.same_but_players(other)
        &&& ids_unique(other.players)
        &&& forall|x: Seq<char>| id_in(other.players, x) <==> (id_in(self.players, x) || x == p)
    }

    /// `other` is this lobby with `p` no longer a member.
    pub open spec fn player_removed(self, other: LobbyModel, p: Seq<char>) -> bool {
        &&& self.same_but_players(other)
        &&& ids_unique(other.players)
        &&& forall|x: Seq<char>| id_in(other.players, x) <==> (id_in(self.players, x) && x != p)
    }
}

impl Lobby {
    /// Well-formedness of the stored lobby.
    pub open spec fn wf(self) -> bool {
        self@.wf()
    }

    /// Decides the discovery visibility rule for this lobby.
    pub fn visible_to(&self, viewer: &Option<PlayerId>) -> (r: bool)
        ensures
            r == self@.visible_to(viewer.deep_view()),
    {
        if !self.is_private && matches!(self.status, LobbyStatus::Waiting) {
            return true;
        }
        if let Some(p) = viewer {
            if contains_id(&self.players, p) {
                return true;
            }
            if self.is_private {
                if let Some(w) = &self.whitelist {
                    if contains_id(w, p) {
                        return true;
                    }
                }
            }
        }
        false
    }
}

impl Clone for Lobby {
    /// The copy has the same mathematical value.
    fn clone(&self) -> (r: Lobby)
        ensures
            r@ == self@,
    {
        Lobby {
            id: self.id,
            owner: self.owner.clone(),
            players: clone_ids(&self.players),
            status: self.status,
            is_private: self.is_private,
            whitelist: match &self.whitelist {
                Some(w) => Some(clone_ids(w)),
                None => None,
            },
        }
    }
}

/// Finds an identity in a vector of identities.
pub fn contains_id(v: &Vec<PlayerId>, x: &PlayerId) -> (r: bool)
    ensures
        r == id_in(v.deep_view(), x@),
{
    let n = v.len();
    for i in 0..n
        invariant
            n == v.len(),
            forall|k: int| 0 <= k < i ==> v.deep_view()[k] != x@,
    {
        assert(v.deep_view()[i as int] == v[i as int]@);
        if v[i] == *x {
            return true;
        }
    }
    false
}

/// Copies a vector of identities; the copy has the same view.
pub fn clone_ids(v: &Vec<PlayerId>) -> (r: Vec<PlayerId>)
    ensures
        r.deep_view() == v.deep_view(),
{
    let mut out: Vec<PlayerId> = Vec::new();
    let n = v.len();
    for i in 0..n
        invariant
            n == v.len(),
            out.len() == i,
            forall|k: int| 0 <= k < i ==> out.deep_view()[k] == v.deep_view()[k],
    {
        out.push(v[i].clone());
        assert(out.deep_view()[i as int] == v.deep_view()[i as int]);
    }
    assert(out.deep_view() =~= v.deep_view());
    out
}

/// Unions identities into a duplicate-free vector: the result holds
/// exactly the identities of `base` and of `more`, each once.
pub fn union_ids(base: &Vec<PlayerId>, more: &Vec<PlayerId>) -> (r: Vec<PlayerId>)
    ensures
        ids_unique(r.deep_view()),
        forall|x: Seq<char>|
            id_in(r.deep_view(), x) <==> (id_in(base.deep_view(), x) || id_in(
                more.deep_view(),
                x,
            )),
{
    let mut all = clone_ids(base);
    let mut tail = clone_ids(more);
    all.append(&mut tail);
    proof {
        assert(all.deep_view() =~= base.deep_view() + more.deep_view());
    }
    let r = dedup_ids(&all);
    proof {
        let b = base.deep_view();
        let m = more.deep_view();
        assert forall|x: Seq<char>| id_in(b + m, x) implies (id_in(b, x) || id_in(m, x)) by {
            let j = choose|j: int| 0 <= j < (b + m).len() && (b + m)[j] == x;
            if j < b.len() {
                assert(b[j] == x);
            } else {
                assert(m[j - b.len()] == x);
            }
        }
        assert forall|x: Seq<char>| (id_in(b, x) || id_in(m, x)) implies id_in(b + m, x) by {
            if id_in(b, x) {
                let j = choose|j: int| 0 <= j < b.len() && b[j] == x;
                assert((b + m)[j] == x);
            } else {
                let j = choose|j: int| 0 <= j < m.len() && m[j] == x;
                assert((b + m)[j + b.len()] == x);
            }
        }
    }
    r
}

/// Removes an identity from a duplicate-free vector of identities.
pub fn remove_id(v: &mut Vec<PlayerId>, x: &PlayerId)
    requires
        ids_unique(old(v).deep_view()),
    ensures
        ids_unique(final(v).deep_view()),
        forall|y: Seq<char>|
            id_in(final(v).deep_view(), y) <==> (id_in(old(v).deep_view(), y) && y != x@),
{
    let n = v.len();
    for i in 0..n
        invariant
            n == v.len(),
            v.deep_view() == old(v).deep_view(),
            ids_unique(v.deep_view()),
            forall|j: int| 0 <= j < i ==> v.deep_view()[j] != x@,
    {
        assert(v.deep_view()[i as int] == v[i as int]@);
        if v[i] == *x {
            let ghost pre = v.deep_view();
            v.remove(i);
            assert(v.deep_view() =~= pre.remove(i as int));
            let ghost post = v.deep_view();
            assert forall|y: Seq<char>| id_in(post, y) implies (id_in(pre, y) && y != x@) by {
                let j = choose|j: int| 0 <= j < post.len() && post[j] == y;
                if j < i {
                    assert(pre[j] == y);
                } else {
                    assert(pre[j + 1] == y);
                }
            }
            assert forall|y: Seq<char>| id_in(pre, y) && y != x@ implies id_in(post, y) by {
                let j = choose|j: int| 0 <= j < pre.len() && pre[j] == y;
                if j < i {
                    assert(post[j] == y);
                } else {
                    assert(j != i);
                    assert(post[j - 1] == y);
                }
            }
            return;
        }
    }
}

/// Copies identities, dropping repeats: the result holds each identity
/// of the input exactly once.
pub fn dedup_ids(v: &Vec<PlayerId>) -> (r: Vec<PlayerId>)
    ensures
        ids_unique(r.deep_view()),
        forall|x: Seq<char>| id_in(r.deep_view(), x) <==> id_in(v.deep_view(), x),
{
    let mut out: Vec<PlayerId> = Vec::new();
    let n = v.len();
    for i in 0..n
        invariant
            n == v.len(),
            ids_unique(out.deep_view()),
            forall|x: Seq<char>| id_in(out.deep_view(), x) <==> id_in(
                v.deep_view().subrange(0, i as int),
                x,
            ),
    {
        assert(v.deep_view()[i as int] == v[i as int]@);
        if !contains_id(&out, &v[i]) {
            let ghost prev = out.deep_view();
            out.push(v[i].clone());
            assert(out.deep_view() =~= prev.push(v@[i as int]@));
            assert forall|x: Seq<char>| id_in(out.deep_view(), x) implies id_in(
                v.deep_view().subrange(0, i + 1),
                x,
            ) by {
                let j = choose|j: int| 0 <= j < out.deep_view().len() && out.deep_view()[j] == x;
                if j < prev.len() {
                    assert(id_in(prev, x));
                    let k = choose|k: int|
                        0 <= k < i && v.deep_view().subrange(0, i as int)[k] == x;
                    assert(v.deep_view().subrange(0, i + 1)[k] == x);
                } else {
                    assert(v.deep_view().subrange(0, i + 1)[i as int] == x);
                }
            }
            assert forall|x: Seq<char>| id_in(v.deep_view().subrange(0, i + 1), x) implies id_in(
                out.deep_view(),
                x,
            ) by {
                let k = choose|k: int| 0 <= k <= i && (#[trigger] v.deep_view().subrange(0, i + 1)[k]) == x;
                if k < i {
                    assert(v.deep_view().subrange(0, i as int)[k] == x);
                    assert(id_in(prev, x));
                    let j = choose|j: int| 0 <= j < prev.len() && prev[j] == x;
                    assert(out.deep_view()[j] == x);
                } else {
                    assert(out.deep_view()[out.deep_view().len() - 1] == x);
                }
            }
        } else {
            assert forall|x: Seq<char>| id_in(v.deep_view().subrange(0, i + 1), x) implies id_in(
                out.deep_view(),
                x,
            ) by {
                let k = choose|k: int| 0 <= k <= i && (#[trigger] v.deep_view().subrange(0, i + 1)[k]) == x;
                if k < i {
                    assert(v.deep_view().subrange(0, i as int)[k] == x);
                } else {
                    assert(x == v.deep_view()[i as int]);
                }
            }
            assert forall|x: Seq<char>| id_in(out.deep_view(), x) implies id_in(
                v.deep_view().subrange(0, i + 1),
                x,
            ) by {
                assert(id_in(v.deep_view().subrange(0, i as int), x));
                let k = choose|k: int| 0 <= k < i && v.deep_view().subrange(0, i as int)[k] == x;
                assert(v.deep_view().subrange(0, i + 1)[k] == x);
            }
        }
    }
    assert(v.deep_view().subrange(0, n as int) =~= v.deep_view());
    out
}

} // verus!
