use vstd::prelude::*;

use crate::error::ServerError;

verus! {

/// One online player: the connection identity it was registered under, the
/// display name, and at most one of a lobby membership or a game membership.
#[derive(Debug, Clone)]
pub struct Player {
    pub id: u32,
    pub name: String,
    pub lobby_id: Option<u32>,
    pub game_id: Option<u32>,
}

impl Player {
    /// A player belongs to a lobby or to a game, never to both at once.
    pub open spec fn memberships_exclusive(self) -> bool {
        !(self.lobby_id is Some && self.game_id is Some)
    }
}

/// Whether some record in `s` carries the identity `id`.
pub open spec fn has_player(s: Seq<Player>, id: u32) -> bool {
    exists|i: int| 0 <= i < s.len() && s[i].id == id
}

/// The position of the record with identity `id`; meaningful only under
/// `has_player`.
pub open spec fn player_index(s: Seq<Player>, id: u32) -> int {
    choose|i: int| 0 <= i < s.len() && s[i].id == id
}

/// The record with identity `id`; meaningful only under `has_player`.
pub open spec fn player_at(s: Seq<Player>, id: u32) -> Player {
    s[player_index(s, id)]
}

/// No two records share an identity.
pub open spec fn distinct_player_ids(s: Seq<Player>) -> bool {
    forall|i: int, j: int| 0 <= i < j < s.len() ==> s[i].id != s[j].id
}

/// The registry of online players. One record per connected identity; a
/// record exists exactly while the connection is registered.
#[derive(Debug)]
pub struct PlayerRegistry {
    pub players: Vec<Player>,
}

impl PlayerRegistry {
    /// Registry invariant: identities are unique, and no record holds a lobby
    /// membership and a game membership at the same time.
    pub open spec fn wf(self) -> bool {
        &&& distinct_player_ids(self.players@)
        &&& forall|i: int|
            0 <= i < self.players@.len() ==> #[trigger] self.players@[i].memberships_exclusive()
    }

    pub fn new() -> (r: PlayerRegistry)
        ensures
            r.wf(),
            r.players@ =~= Seq::<Player>::empty(),
    {
        PlayerRegistry { players: Vec::new() }
    }

    /// The index of the record with identity `id`, if one exists.
    pub fn index_of(&self, id: u32) -> (r: Option<usize>)
        ensures
            r is Some <==> has_player(self.players@, id),
            r matches Some(i) ==> 0 <= i < self.players@.len() && self.players@[i as int].id
                == id,
            self.wf() ==> (r matches Some(i) ==> i as int == player_index(self.players@, id)),
    {
        let mut i: usize = 0;
        while i < self.players.len()
            invariant
                0 <= i <= self.players@.len(),
                forall|j: int| 0 <= j < i ==> self.players@[j].id != id,
            decreases self.players@.len() - i,
        {
            if self.players[i].id == id {
                proof {
                    if distinct_player_ids(self.players@) {
                        let k = player_index(self.players@, id);
                        if k != i as int {
                            assert(self.players@[k].id == id);
                        }
                    }
                }
                return Some(i);
            }
            i += 1;
        }
        None
    }

    /// Whether the identity is registered.
    pub fn contains(&self, id: u32) -> (r: bool)
        ensures
            r == has_player(self.players@, id),
    {
        self.index_of(id).is_some()
    }

    /// Look up the record for `id`.
    pub fn lookup(&self, id: u32) -> (r: Option<&Player>)
        requires
            self.wf(),
        ensures
            r is Some <==> has_player(self.players@, id),
            r matches Some(p) ==> *p == player_at(self.players@, id),
    {
        match self.index_of(id) {
            Some(i) => Some(&self.players[i]),
            None => None,
        }
    }

    /// Add a record for `id`, unless one exists. The new player starts with
    /// no lobby and no game membership.
    pub fn register(&mut self, id: u32, name: String) -> (r: Result<(), ServerError>)
        requires
            old(self).wf(),
        ensures
            final(self).wf(),
            has_player(old(self).players@, id) ==> r == Err::<(), ServerError>(
                ServerError::AlreadyConnected,
            ) && *final(self) == *old(self),
            !has_player(old(self).players@, id) ==> r is Ok && final(self).players@ == old(
                self,
            ).players@.push(
                (Player { id, name, lobby_id: None, game_id: None }),
            ),
    {
        if self.contains(id) {
            return Err(ServerError::AlreadyConnected);
        }
        self.players.push(Player { id, name, lobby_id: None, game_id: None });
        Ok(())
    }

    /// Remove and return the record for `id`, so the caller can cascade
    /// cleanup of whatever memberships it held.
    pub fn deregister(&mut self, id: u32) -> (r: Result<Player, ServerError>)
        requires
            old(self).wf(),
        ensures
            final(self).wf(),
            !has_player(old(self).players@, id) ==> r == Err::<Player, ServerError>(
                ServerError::PlayerNotFound,
            ) && *final(self) == *old(self),
            has_player(old(self).players@, id) ==> {
                &&& r == Ok::<Player, ServerError>(player_at(old(self).players@, id))
                &&& final(self).players@ == old(self).players@.remove(
                    player_index(old(self).players@, id),
                )
                &&& !has_player(final(self).players@, id)
                &&& forall|id2: u32|
                    id2 != id ==> #[trigger] has_player(final(self).players@, id2) == has_player(
                        old(self).players@,
                        id2,
                    )
                &&& forall|id2: u32|
                    id2 != id && has_player(old(self).players@, id2)
                        ==> #[trigger] player_at(final(self).players@, id2) == player_at(
                        old(self).players@,
                        id2,
                    )
            },
    {
        match self.index_of(id) {
            Some(i) => {
                let p = self.players.remove(i);
                proof {
                    lemma_remove_player(old(self).players@, id);
                }
                Ok(p)
            },
            None => Err(ServerError::PlayerNotFound),
        }
    }

    /// Overwrite the lobby membership of the record for `id`.
    pub fn set_lobby(&mut self, id: u32, lobby: Option<u32>) -> (ok: bool)
        requires
            old(self).wf(),
            has_player(old(self).players@, id) ==> (lobby is Some ==> player_at(
                old(self).players@,
                id,
            ).game_id is None),
        ensures
            final(self).wf(),
            ok == has_player(old(self).players@, id),
            !ok ==> *final(self) == *old(self),
            ok ==> final(self).players@ == old(self).players@.update(
                player_index(old(self).players@, id),
                (Player { lobby_id: lobby, ..player_at(old(self).players@, id) }),
            ),
    {
        match self.index_of(id) {
            Some(i) => {
                let name = self.players[i].name.clone();
                let p = Player {
                    id: self.players[i].id,
                    name,
                    lobby_id: lobby,
                    game_id: self.players[i].game_id,
                };
                proof {
                    lemma_update_player(self.players@, i as int, p);
                }
                self.players.set(i, p);
                true
            },
            None => false,
        }
    }

    /// Overwrite both memberships of the record for `id` at once, as the
    /// lobby-to-game transition needs; at most one of them may be set.
    pub fn set_memberships(&mut self, id: u32, lobby: Option<u32>, game: Option<u32>) -> (ok: bool)
        requires
            old(self).wf(),
            !(lobby is Some && game is Some),
        ensures
            final(self).wf(),
            ok == has_player(old(self).players@, id),
            !ok ==> *final(self) == *old(self),
            ok ==> final(self).players@ == old(self).players@.update(
                player_index(old(self).players@, id),
                (Player { lobby_id: lobby, game_id: game, ..player_at(old(self).players@, id) }),
            ),
    {
        match self.index_of(id) {
            Some(i) => {
                let name = self.players[i].name.clone();
                let p = Player { id: self.players[i].id, name, lobby_id: lobby, game_id: game };
                proof {
                    lemma_update_player(self.players@, i as int, p);
                }
                self.players.set(i, p);
                true
            },
            None => false,
        }
    }

    /// Overwrite the game membership of the record for `id`.
    pub fn set_game(&mut self, id: u32, game: Option<u32>) -> (ok: bool)
        requires
            old(self).wf(),
            has_player(old(self).players@, id) ==> (game is Some ==> player_at(
                old(self).players@,
                id,
            ).lobby_id is None),
        ensures
            final(self).wf(),
            ok == has_player(old(self).players@, id),
            !ok ==> *final(self) == *old(self),
            ok ==> final(self).players@ == old(self).players@.update(
                player_index(old(self).players@, id),
                (Player { game_id: game, ..player_at(old(self).players@, id) }),
            ),
    {
        match self.index_of(id) {
            Some(i) => {
                let name = self.players[i].name.clone();
                let p = Player {
                    id: self.players[i].id,
                    name,
                    lobby_id: self.players[i].lobby_id,
                    game_id: game,
                };
                proof {
                    lemma_update_player(self.players@, i as int, p);
                }
                self.players.set(i, p);
                true
            },
            None => false,
        }
    }

    pub fn len(&self) -> (r: usize)
        ensures
            r == self.players@.len(),
    {
        self.players.len()
    }
}

/// After removing the record at `player_index(s, id)` from a duplicate-free
/// sequence, `id` is gone and every other identity keeps its record.
pub proof fn lemma_remove_player(s: Seq<Player>, id: u32)
    requires
        distinct_player_ids(s),
        has_player(s, id),
    ensures
        distinct_player_ids(s.remove(player_index(s, id))),
        !has_player(s.remove(player_index(s, id)), id),
        forall|id2: u32|
            id2 != id ==> #[trigger] has_player(s.remove(player_index(s, id)), id2) == has_player(
                s,
                id2,
            ),
        forall|id2: u32|
            id2 != id && has_player(s, id2) ==> #[trigger] player_at(
                s.remove(player_index(s, id)),
                id2,
            ) == player_at(s, id2),
{
    let k = player_index(s, id);
    let t = s.remove(k);
    assert forall|id2: u32| id2 != id implies #[trigger] has_player(t, id2) == has_player(
        s,
        id2,
    ) by {
        if has_player(s, id2) {
            let j = player_index(s, id2);
            assert(s[j].id == id2);
            if j < k {
                assert(t[j] == s[j]);
            } else {
                assert(s[j].id != s[k].id);
                assert(j > k);
                assert(t[j - 1] == s[j]);
            }
        }
        if has_player(t, id2) {
            let j = choose|i: int| 0 <= i < t.len() && t[i].id == id2;
            if j < k {
                assert(s[j] == t[j]);
            } else {
                assert(s[j + 1] == t[j]);
            }
        }
    }
    if has_player(t, id) {
        let j = choose|i: int| 0 <= i < t.len() && t[i].id == id;
        if j < k {
            assert(s[j].id == id);
            assert(s[k].id == id);
        } else {
            assert(s[j + 1].id == id);
            assert(s[k].id == id);
        }
    }
    assert forall|id2: u32| id2 != id && has_player(s, id2) implies #[trigger] player_at(t, id2)
        == player_at(s, id2) by {
        let j = player_index(s, id2);
        assert(s[j].id == id2);
        if j < k {
            assert(t[j] == s[j]);
        } else {
            assert(j != k);
            assert(t[j - 1] == s[j]);
        }
        let j2 = player_index(t, id2);
        assert(t[j2].id == id2);
        let back = if j2 < k {
            j2
        } else {
            j2 + 1
        };
        assert(s[back] == t[j2]);
        assert(back == j);
    }
}

/// Updating the record at a live index `i` with a record that keeps the same
/// identity preserves distinctness, and `player_at` afterwards reads the new
/// record at that identity and the old record everywhere else.
pub proof fn lemma_update_player(s: Seq<Player>, i: int, p: Player)
    requires
        distinct_player_ids(s),
        0 <= i < s.len(),
        p.id == s[i].id,
    ensures
        distinct_player_ids(s.update(i, p)),
        forall|id2: u32| #[trigger] has_player(s.update(i, p), id2) == has_player(s, id2),
        player_index(s, p.id) == i,
        has_player(s.update(i, p), p.id),
        player_at(s.update(i, p), p.id) == p,
        forall|id2: u32|
            id2 != p.id && has_player(s, id2) ==> #[trigger] player_at(s.update(i, p), id2)
                == player_at(s, id2),
{
    let t = s.update(i, p);
    assert forall|id2: u32| #[trigger] has_player(t, id2) == has_player(s, id2) by {
        if has_player(s, id2) {
            let j = player_index(s, id2);
            if j == i && id2 == p.id {
                assert(t[i].id == id2);
            } else if j == i {
                assert(s[i].id == id2);
                assert(t[i].id == p.id);
                assert(p.id == s[i].id);
            } else {
                assert(t[j] == s[j]);
            }
        }
        if has_player(t, id2) {
            let j = choose|x: int| 0 <= x < t.len() && t[x].id == id2;
            if j == i {
                assert(s[i].id == p.id);
                assert(s[i].id == id2);
            } else {
                assert(s[j] == t[j]);
            }
        }
    }
    let k = player_index(s, p.id);
    assert(s[i].id == p.id);
    if k != i {
        assert(s[k].id == p.id);
        assert(false);
    }
    let k2 = player_index(t, p.id);
    assert(t[i].id == p.id);
    if k2 != i {
        assert(t[k2].id == p.id);
        assert(s[k2] == t[k2]);
        assert(false);
    }
    assert forall|id2: u32| id2 != p.id && has_player(s, id2) implies #[trigger] player_at(t, id2)
        == player_at(s, id2) by {
        let j = player_index(s, id2);
        assert(s[j].id == id2);
        assert(j != i);
        assert(t[j] == s[j]);
        let j2 = player_index(t, id2);
        assert(t[j2].id == id2);
        assert(j2 != i);
        assert(s[j2] == t[j2]);
        assert(j2 == j);
    }
}

/// Pushing a record with a fresh identity keeps distinctness; the new
/// identity becomes present and every other identity keeps its record.
pub proof fn lemma_push_player(s: Seq<Player>, p: Player)
    requires
        distinct_player_ids(s),
        !has_player(s, p.id),
    ensures
        distinct_player_ids(s.push(p)),
        has_player(s.push(p), p.id),
        player_at(s.push(p), p.id) == p,
        forall|id2: u32|
            id2 != p.id ==> #[trigger] has_player(s.push(p), id2) == has_player(s, id2),
        forall|id2: u32|
            id2 != p.id && has_player(s, id2) ==> #[trigger] player_at(s.push(p), id2) == player_at(
                s,
                id2,
            ),
{
    let t = s.push(p);
    assert(t[s.len() as int] == p);
    assert forall|i: int, j: int| 0 <= i < j < t.len() implies t[i].id != t[j].id by {
        if j < s.len() {
            assert(t[i] == s[i] && t[j] == s[j]);
        } else {
            assert(t[i] == s[i]);
            if t[i].id == p.id {
                assert(has_player(s, p.id));
            }
        }
    }
    let k = player_index(t, p.id);
    assert(t[s.len() as int].id == p.id);
    if k != s.len() {
        assert(t[k].id == p.id);
        assert(s[k] == t[k]);
        assert(has_player(s, p.id));
    }
    assert forall|id2: u32| id2 != p.id implies #[trigger] has_player(t, id2) == has_player(
        s,
        id2,
    ) by {
        if has_player(s, id2) {
            let j = player_index(s, id2);
            assert(t[j] == s[j]);
        }
        if has_player(t, id2) {
            let j = choose|x: int| 0 <= x < t.len() && t[x].id == id2;
            assert(j < s.len());
            assert(s[j] == t[j]);
        }
    }
    assert forall|id2: u32| id2 != p.id && has_player(s, id2) implies #[trigger] player_at(t, id2)
        == player_at(s, id2) by {
        let j = player_index(s, id2);
        assert(s[j].id == id2);
        assert(t[j] == s[j]);
        let j2 = player_index(t, id2);
        assert(t[j2].id == id2);
        assert(j2 < s.len());
        assert(s[j2] == t[j2]);
        assert(j2 == j);
    }
}

/// Registering the same identity twice yields `AlreadyConnected` on the
/// second call and leaves the original record untouched.
///
/// `mid` is what a successful `register` leaves behind: `pre` with the fresh
/// record `p` pushed. This lemma shows `p.id` is then present with exactly
/// the record `p`; `register`'s own contract therefore makes any second call
/// for `p.id` return `AlreadyConnected` and keep the registry — in
/// particular the record `p` — unchanged.
pub proof fn lemma_register_twice(pre: PlayerRegistry, mid: PlayerRegistry, p: Player)
    requires
        pre.wf(),
        !has_player(pre.players@, p.id),
        mid.players@ == pre.players@.push(p),
    ensures
        has_player(mid.players@, p.id),
        player_at(mid.players@, p.id) == p,
{
    lemma_push_player(pre.players@, p);
}

/// Deregistering an identity makes any subsequent lookup for it miss: once
/// the record at `player_index` is gone, `lookup`'s contract can only answer
/// `None` for that identity. A deregister of an identity that was never
/// registered fails with `PlayerNotFound` and changes nothing, by
/// `deregister`'s own contract.
pub proof fn lemma_deregister_then_lookup(pre: PlayerRegistry, post: PlayerRegistry, id: u32)
    requires
        pre.wf(),
        has_player(pre.players@, id),
        post.players@ == pre.players@.remove(player_index(pre.players@, id)),
    ensures
        !has_player(post.players@, id),
{
    lemma_remove_player(pre.players@, id);
}

} // verus!
