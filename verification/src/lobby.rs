use vstd::prelude::*;

use crate::error::ServerError;

verus! {

/// One lobby member: a connection identity and its readiness flag.
#[derive(Debug, Clone, Copy, PartialEq, Eq, Structural)]
pub struct LobbyMember {
    pub id: u32,
    pub ready: bool,
}

/// Whether some member of `s` carries the identity `id`.
pub open spec fn has_member(s: Seq<LobbyMember>, id: u32) -> bool {
    exists|i: int| 0 <= i < s.len() && s[i].id == id
}

/// The position of the member with identity `id`; meaningful only under
/// `has_member`.
pub open spec fn member_index(s: Seq<LobbyMember>, id: u32) -> int {
    choose|i: int| 0 <= i < s.len() && s[i].id == id
}

/// The member with identity `id`; meaningful only under `has_member`.
pub open spec fn member_at(s: Seq<LobbyMember>, id: u32) -> LobbyMember {
    s[member_index(s, id)]
}

/// No two members share an identity.
pub open spec fn distinct_member_ids(s: Seq<LobbyMember>) -> bool {
    forall|i: int, j: int| 0 <= i < j < s.len() ==> s[i].id != s[j].id
}

/// A pre-game waiting room: an ordered member list, each member with a
/// readiness flag, and a fixed capacity the member list never exceeds.
#[derive(Debug, Clone)]
pub struct Lobby {
    pub id: u32,
    pub capacity: usize,
    pub members: Vec<LobbyMember>,
}

impl Lobby {
    /// Lobby invariant: member identities are unique, the member list never
    /// exceeds the capacity, and the capacity admits at least one member.
    pub open spec fn wf(self) -> bool {
        &&& distinct_member_ids(self.members@)
        &&& self.members@.len() <= self.capacity
        &&& self.capacity >= 1
    }

    /// The member identities in join order.
    pub open spec fn member_ids(self) -> Seq<u32> {
        self.members@.map_values(|m: LobbyMember| m.id)
    }

    /// Whether every member has set its readiness flag.
    pub open spec fn all_ready(self) -> bool {
        forall|i: int| 0 <= i < self.members@.len() ==> #[trigger] self.members@[i].ready
    }

    /// The position of the member with identity `id`, if present.
    pub fn index_of_member(&self, id: u32) -> (r: Option<usize>)
        ensures
            r is Some <==> has_member(self.members@, id),
            r matches Some(i) ==> 0 <= i < self.members@.len() && self.members@[i as int].id
                == id,
            self.wf() ==> (r matches Some(i) ==> i as int == member_index(self.members@, id)),
    {
        let mut i: usize = 0;
        while i < self.members.len()
            invariant
                0 <= i <= self.members@.len(),
                forall|j: int| 0 <= j < i ==> self.members@[j].id != id,
            decreases self.members@.len() - i,
        {
            if self.members[i].id == id {
                proof {
                    if distinct_member_ids(self.members@) {
                        let k = member_index(self.members@, id);
                        if k != i as int {
                            assert(self.members@[k].id == id);
                        }
                    }
                }
                return Some(i);
            }
            i += 1;
        }
        None
    }

    /// Look up the member with identity `id`.
    pub fn get_player(&self, id: u32) -> (r: Option<&LobbyMember>)
        requires
            self.wf(),
        ensures
            r is Some <==> has_member(self.members@, id),
            r matches Some(m) ==> *m == member_at(self.members@, id),
    {
        match self.index_of_member(id) {
            Some(i) => Some(&self.members[i]),
            None => None,
        }
    }

    /// Add `id` as a member, unless it already is one (`AlreadyMember`, which
    /// takes precedence) or the lobby is at capacity (`Full`). A new member
    /// starts not ready.
    pub fn add_player(&mut self, id: u32) -> (r: Result<(), ServerError>)
        requires
            old(self).wf(),
        ensures
            final(self).wf(),
            final(self).id == old(self).id && final(self).capacity == old(self).capacity,
            has_member(old(self).members@, id) ==> r == Err::<(), ServerError>(
                ServerError::AlreadyMember,
            ) && *final(self) == *old(self),
            !has_member(old(self).members@, id) && old(self).members@.len() >= old(self).capacity
                ==> r == Err::<(), ServerError>(ServerError::Full) && *final(self) == *old(
                self,
            ),
            !has_member(old(self).members@, id) && old(self).members@.len() < old(self).capacity
                ==> r is Ok && final(self).members@ == old(self).members@.push(
                (LobbyMember { id, ready: false }),
            ),
    {
        if self.index_of_member(id).is_some() {
            return Err(ServerError::AlreadyMember);
        }
        if self.members.len() >= self.capacity {
            return Err(ServerError::Full);
        }
        self.members.push(LobbyMember { id, ready: false });
        Ok(())
    }

    /// Remove the member with identity `id`; `NotMember` if there is none.
    pub fn remove_player(&mut self, id: u32) -> (r: Result<(), ServerError>)
        requires
            old(self).wf(),
        ensures
            final(self).wf(),
            final(self).id == old(self).id && final(self).capacity == old(self).capacity,
            !has_member(old(self).members@, id) ==> r == Err::<(), ServerError>(
                ServerError::NotMember,
            ) && *final(self) == *old(self),
            has_member(old(self).members@, id) ==> {
                &&& r is Ok
                &&& final(self).members@ == old(self).members@.remove(
                    member_index(old(self).members@, id),
                )
                &&& !has_member(final(self).members@, id)
                &&& forall|id2: u32|
                    id2 != id ==> #[trigger] has_member(final(self).members@, id2) == has_member(
                        old(self).members@,
                        id2,
                    )
                &&& forall|id2: u32|
                    id2 != id && has_member(old(self).members@, id2) ==> #[trigger] member_at(
                        final(self).members@,
                        id2,
                    ) == member_at(old(self).members@, id2)
            },
    {
        match self.index_of_member(id) {
            Some(i) => {
                proof {
                    lemma_remove_member(self.members@, id);
                }
                self.members.remove(i);
                Ok(())
            },
            None => Err(ServerError::NotMember),
        }
    }

    /// Set the readiness flag of the member with identity `id`; `NotMember`
    /// if there is none.
    pub fn set_ready(&mut self, id: u32, flag: bool) -> (r: Result<(), ServerError>)
        requires
            old(self).wf(),
        ensures
            final(self).wf(),
            final(self).id == old(self).id && final(self).capacity == old(self).capacity,
            !has_member(old(self).members@, id) ==> r == Err::<(), ServerError>(
                ServerError::NotMember,
            ) && *final(self) == *old(self),
            has_member(old(self).members@, id) ==> r is Ok && final(self).members@ == old(
                self,
            ).members@.update(
                member_index(old(self).members@, id),
                (LobbyMember { id, ready: flag }),
            ),
    {
        match self.index_of_member(id) {
            Some(i) => {
                proof {
                    lemma_update_member(
                        self.members@,
                        i as int,
                        (LobbyMember { id, ready: flag }),
                    );
                }
                self.members.set(i, LobbyMember { id, ready: flag });
                Ok(())
            },
            None => Err(ServerError::NotMember),
        }
    }

    /// The member identities in join order, as a fresh vector.
    pub fn member_id_vec(&self) -> (r: Vec<u32>)
        ensures
            r@ == self.member_ids(),
    {
        let mut ids: Vec<u32> = Vec::new();
        let mut i: usize = 0;
        while i < self.members.len()
            invariant
                0 <= i <= self.members@.len(),
                ids@ == self.members@.subrange(0, i as int).map_values(|m: LobbyMember| m.id),
            decreases self.members@.len() - i,
        {
            ids.push(self.members[i].id);
            proof {
                assert(self.members@.subrange(0, i + 1 as int).map_values(
                    |m: LobbyMember| m.id,
                ) =~= self.members@.subrange(0, i as int).map_values(|m: LobbyMember| m.id).push(
                    self.members@[i as int].id,
                ));
            }
            i += 1;
        }
        proof {
            assert(self.members@.subrange(0, self.members@.len() as int) =~= self.members@);
        }
        ids
    }
}

/// Whether some lobby in `s` carries the identity `id`.
pub open spec fn has_lobby(s: Seq<Lobby>, id: u32) -> bool {
    exists|i: int| 0 <= i < s.len() && s[i].id == id
}

/// The position of the lobby with identity `id`; meaningful only under
/// `has_lobby`.
pub open spec fn lobby_index(s: Seq<Lobby>, id: u32) -> int {
    choose|i: int| 0 <= i < s.len() && s[i].id == id
}

/// The lobby with identity `id`; meaningful only under `has_lobby`.
pub open spec fn lobby_at(s: Seq<Lobby>, id: u32) -> Lobby {
    s[lobby_index(s, id)]
}

/// No two lobbies share an identity.
pub open spec fn distinct_lobby_ids(s: Seq<Lobby>) -> bool {
    forall|i: int, j: int| 0 <= i < j < s.len() ==> s[i].id != s[j].id
}

/// Registry of live lobbies. Identities count up from zero and are never
/// reused; a lobby leaves the registry when its last member does, or when the
/// lobby turns into a game.
#[derive(Debug)]
pub struct Lobbies {
    pub lobbies: Vec<Lobby>,
    pub next_id: u32,
}

impl Lobbies {
    /// Registry invariant: lobby identities are unique and below the
    /// allocation counter, and every lobby is well formed.
    pub open spec fn wf(self) -> bool {
        &&& distinct_lobby_ids(self.lobbies@)
        &&& forall|i: int| 0 <= i < self.lobbies@.len() ==> (#[trigger] self.lobbies@[i]).wf()
        &&& forall|i: int|
            0 <= i < self.lobbies@.len() ==> (#[trigger] self.lobbies@[i]).id < self.next_id
    }

    pub fn new() -> (r: Lobbies)
        ensures
            r.wf(),
            r.lobbies@ =~= Seq::<Lobby>::empty(),
            r.next_id == 0,
    {
        Lobbies { lobbies: Vec::new(), next_id: 0 }
    }

    /// The position of the lobby with identity `id`, if present.
    pub fn index_of(&self, id: u32) -> (r: Option<usize>)
        ensures
            r is Some <==> has_lobby(self.lobbies@, id),
            r matches Some(i) ==> 0 <= i < self.lobbies@.len() && self.lobbies@[i as int].id
                == id,
            self.wf() ==> (r matches Some(i) ==> i as int == lobby_index(self.lobbies@, id)),
    {
        let mut i: usize = 0;
        while i < self.lobbies.len()
            invariant
                0 <= i <= self.lobbies@.len(),
                forall|j: int| 0 <= j < i ==> self.lobbies@[j].id != id,
            decreases self.lobbies@.len() - i,
        {
            if self.lobbies[i].id == id {
                proof {
                    if distinct_lobby_ids(self.lobbies@) {
                        let k = lobby_index(self.lobbies@, id);
                        if k != i as int {
                            assert(self.lobbies@[k].id == id);
                        }
                    }
                }
                return Some(i);
            }
            i += 1;
        }
        None
    }

    /// Look up the lobby with identity `id`.
    pub fn get_lobby(&self, id: u32) -> (r: Option<&Lobby>)
        requires
            self.wf(),
        ensures
            r is Some <==> has_lobby(self.lobbies@, id),
            r matches Some(l) ==> *l == lobby_at(self.lobbies@, id),
    {
        match self.index_of(id) {
            Some(i) => Some(&self.lobbies[i]),
            None => None,
        }
    }

    /// Create an empty lobby under a fresh identity and return that identity.
    pub fn create_lobby(&mut self, capacity: usize) -> (r: u32)
        requires
            old(self).wf(),
            old(self).next_id < u32::MAX,
            capacity >= 1,
        ensures
            final(self).wf(),
            r == old(self).next_id,
            final(self).next_id == old(self).next_id + 1,
            final(self).lobbies@.len() == old(self).lobbies@.len() + 1,
            final(self).lobbies@ == old(self).lobbies@.push(
                lobby_at(final(self).lobbies@, r),
            ),
            forall|i: int|
                0 <= i < old(self).lobbies@.len() ==> final(self).lobbies@[i] == old(
                    self,
                ).lobbies@[i],
            !has_lobby(old(self).lobbies@, r),
            has_lobby(final(self).lobbies@, r),
            lobby_at(final(self).lobbies@, r).id == r,
            lobby_at(final(self).lobbies@, r).capacity == capacity,
            lobby_at(final(self).lobbies@, r).members@ == Seq::<LobbyMember>::empty(),
            forall|id2: u32|
                id2 != r ==> #[trigger] has_lobby(final(self).lobbies@, id2) == has_lobby(
                    old(self).lobbies@,
                    id2,
                ),
            forall|id2: u32|
                id2 != r && has_lobby(old(self).lobbies@, id2) ==> #[trigger] lobby_at(
                    final(self).lobbies@,
                    id2,
                ) == lobby_at(old(self).lobbies@, id2),
    {
        let id = self.next_id;
        let lobby = Lobby { id, capacity, members: Vec::new() };
        proof {
            if has_lobby(self.lobbies@, id) {
                let k = lobby_index(self.lobbies@, id);
                assert(self.lobbies@[k].id == id);
            }
            assert(lobby.members@ =~= Seq::<LobbyMember>::empty());
            lemma_push_lobby(self.lobbies@, lobby);
        }
        self.lobbies.push(lobby);
        self.next_id = self.next_id + 1;
        id
    }

    /// Drop the lobby with identity `id` from the registry.
    pub fn destroy(&mut self, id: u32) -> (ok: bool)
        requires
            old(self).wf(),
        ensures
            final(self).wf(),
            final(self).next_id == old(self).next_id,
            ok == has_lobby(old(self).lobbies@, id),
            !ok ==> *final(self) == *old(self),
            ok ==> {
                &&& final(self).lobbies@ == old(self).lobbies@.remove(
                    lobby_index(old(self).lobbies@, id),
                )
                &&& !has_lobby(final(self).lobbies@, id)
                &&& forall|id2: u32|
                    id2 != id ==> #[trigger] has_lobby(final(self).lobbies@, id2) == has_lobby(
                        old(self).lobbies@,
                        id2,
                    )
                &&& forall|id2: u32|
                    id2 != id && has_lobby(old(self).lobbies@, id2) ==> #[trigger] lobby_at(
                        final(self).lobbies@,
                        id2,
                    ) == lobby_at(old(self).lobbies@, id2)
            },
    {
        match self.index_of(id) {
            Some(i) => {
                proof {
                    lemma_remove_lobby(self.lobbies@, id);
                }
                self.lobbies.remove(i);
                true
            },
            None => false,
        }
    }

    /// Add `player_id` to the member list of the lobby `lobby_id`.
    pub fn add_member(&mut self, lobby_id: u32, player_id: u32) -> (r: Result<(), ServerError>)
        requires
            old(self).wf(),
        ensures
            final(self).wf(),
            final(self).next_id == old(self).next_id,
            !has_lobby(old(self).lobbies@, lobby_id) ==> r == Err::<(), ServerError>(
                ServerError::LobbyNotFound,
            ) && *final(self) == *old(self),
            has_lobby(old(self).lobbies@, lobby_id) && has_member(
                lobby_at(old(self).lobbies@, lobby_id).members@,
                player_id,
            ) ==> r == Err::<(), ServerError>(ServerError::AlreadyMember) && *final(self) == *old(
                self,
            ),
            has_lobby(old(self).lobbies@, lobby_id) && !has_member(
                lobby_at(old(self).lobbies@, lobby_id).members@,
                player_id,
            ) && lobby_at(old(self).lobbies@, lobby_id).members@.len() >= lobby_at(
                old(self).lobbies@,
                lobby_id,
            ).capacity ==> r == Err::<(), ServerError>(ServerError::Full) && *final(self) == *old(
                self,
            ),
            has_lobby(old(self).lobbies@, lobby_id) && !has_member(
                lobby_at(old(self).lobbies@, lobby_id).members@,
                player_id,
            ) && lobby_at(old(self).lobbies@, lobby_id).members@.len() < lobby_at(
                old(self).lobbies@,
                lobby_id,
            ).capacity ==> {
                &&& r is Ok
                &&& has_lobby(final(self).lobbies@, lobby_id)
                &&& lobby_at(final(self).lobbies@, lobby_id).id == lobby_id
                &&& lobby_at(final(self).lobbies@, lobby_id).capacity == lobby_at(
                    old(self).lobbies@,
                    lobby_id,
                ).capacity
                &&& lobby_at(final(self).lobbies@, lobby_id).members@ == lobby_at(
                    old(self).lobbies@,
                    lobby_id,
                ).members@.push((LobbyMember { id: player_id, ready: false }))
                &&& final(self).lobbies@ == old(self).lobbies@.update(
                    lobby_index(old(self).lobbies@, lobby_id),
                    lobby_at(final(self).lobbies@, lobby_id),
                )
                &&& forall|id2: u32|
                    #[trigger] has_lobby(final(self).lobbies@, id2) == has_lobby(
                        old(self).lobbies@,
                        id2,
                    )
                &&& forall|id2: u32|
                    id2 != lobby_id && has_lobby(old(self).lobbies@, id2) ==> #[trigger] lobby_at(
                        final(self).lobbies@,
                        id2,
                    ) == lobby_at(old(self).lobbies@, id2)
            },
    {
        let i = match self.index_of(lobby_id) {
            Some(i) => i,
            None => {
                return Err(ServerError::LobbyNotFound);
            },
        };
        if self.lobbies[i].index_of_member(player_id).is_some() {
            return Err(ServerError::AlreadyMember);
        }
        if self.lobbies[i].members.len() >= self.lobbies[i].capacity {
            return Err(ServerError::Full);
        }
        let l = &mut self.lobbies[i];
        let r = l.add_player(player_id);
        proof {
            lemma_update_lobby(old(self).lobbies@, i as int, *final(l));
        }
        r
    }

    /// Remove `player_id` from the member list of the lobby `lobby_id`; a
    /// lobby whose last member leaves is destroyed, eagerly. Returns whether
    /// the lobby was destroyed.
    pub fn remove_member(&mut self, lobby_id: u32, player_id: u32) -> (r: Result<bool, ServerError>)
        requires
            old(self).wf(),
        ensures
            final(self).wf(),
            final(self).next_id == old(self).next_id,
            !has_lobby(old(self).lobbies@, lobby_id) ==> r == Err::<bool, ServerError>(
                ServerError::LobbyNotFound,
            ) && *final(self) == *old(self),
            has_lobby(old(self).lobbies@, lobby_id) && !has_member(
                lobby_at(old(self).lobbies@, lobby_id).members@,
                player_id,
            ) ==> r == Err::<bool, ServerError>(ServerError::NotMember) && *final(self) == *old(
                self,
            ),
            has_lobby(old(self).lobbies@, lobby_id) && has_member(
                lobby_at(old(self).lobbies@, lobby_id).members@,
                player_id,
            ) && lobby_at(old(self).lobbies@, lobby_id).members@.len() == 1 ==> {
                &&& r == Ok::<bool, ServerError>(true)
                &&& !has_lobby(final(self).lobbies@, lobby_id)
                &&& final(self).lobbies@ == old(self).lobbies@.remove(
                    lobby_index(old(self).lobbies@, lobby_id),
                )
                &&& forall|id2: u32|
                    id2 != lobby_id ==> #[trigger] has_lobby(final(self).lobbies@, id2)
                        == has_lobby(old(self).lobbies@, id2)
                &&& forall|id2: u32|
                    id2 != lobby_id && has_lobby(old(self).lobbies@, id2) ==> #[trigger] lobby_at(
                        final(self).lobbies@,
                        id2,
                    ) == lobby_at(old(self).lobbies@, id2)
            },
            has_lobby(old(self).lobbies@, lobby_id) && has_member(
                lobby_at(old(self).lobbies@, lobby_id).members@,
                player_id,
            ) && lobby_at(old(self).lobbies@, lobby_id).members@.len() > 1 ==> {
                let l0 = lobby_at(old(self).lobbies@, lobby_id);
                &&& r == Ok::<bool, ServerError>(false)
                &&& has_lobby(final(self).lobbies@, lobby_id)
                &&& lobby_at(final(self).lobbies@, lobby_id).id == lobby_id
                &&& lobby_at(final(self).lobbies@, lobby_id).capacity == l0.capacity
                &&& lobby_at(final(self).lobbies@, lobby_id).members@ == l0.members@.remove(
                    member_index(l0.members@, player_id),
                )
                &&& final(self).lobbies@ == old(self).lobbies@.update(
                    lobby_index(old(self).lobbies@, lobby_id),
                    lobby_at(final(self).lobbies@, lobby_id),
                )
                &&& !has_member(lobby_at(final(self).lobbies@, lobby_id).members@, player_id)
                &&& forall|id2: u32|
                    #[trigger] has_lobby(final(self).lobbies@, id2) == has_lobby(
                        old(self).lobbies@,
                        id2,
                    )
                &&& forall|id2: u32|
                    id2 != lobby_id && has_lobby(old(self).lobbies@, id2) ==> #[trigger] lobby_at(
                        final(self).lobbies@,
                        id2,
                    ) == lobby_at(old(self).lobbies@, id2)
                &&& forall|id2: u32|
                    id2 != player_id ==> #[trigger] has_member(
                        lobby_at(final(self).lobbies@, lobby_id).members@,
                        id2,
                    ) == has_member(l0.members@, id2)
                &&& forall|id2: u32|
                    id2 != player_id && has_member(l0.members@, id2) ==> #[trigger] member_at(
                        lobby_at(final(self).lobbies@, lobby_id).members@,
                        id2,
                    ) == member_at(l0.members@, id2)
            },
    {
        let i = match self.index_of(lobby_id) {
            Some(i) => i,
            None => {
                return Err(ServerError::LobbyNotFound);
            },
        };
        if self.lobbies[i].index_of_member(player_id).is_none() {
            return Err(ServerError::NotMember);
        }
        let l = &mut self.lobbies[i];
        let r = l.remove_player(player_id);
        let now_empty = l.members.len() == 0;
        proof {
            lemma_update_lobby(old(self).lobbies@, i as int, *final(l));
        }
        if now_empty {
            let ghost mid = self.lobbies@;
            let destroyed = self.destroy(lobby_id);
            proof {
                assert(destroyed);
                assert(mid[i as int].id == lobby_id);
                let k = lobby_index(mid, lobby_id);
                if k != i as int {
                    assert(mid[k].id == lobby_id);
                }
                assert(self.lobbies@ =~= old(self).lobbies@.remove(
                    lobby_index(old(self).lobbies@, lobby_id),
                ));
            }
            Ok(true)
        } else {
            Ok(false)
        }
    }

    /// Set the readiness flag of `player_id` in the lobby `lobby_id`.
    pub fn set_member_ready(&mut self, lobby_id: u32, player_id: u32, flag: bool) -> (r: Result<
        (),
        ServerError,
    >)
        requires
            old(self).wf(),
        ensures
            final(self).wf(),
            final(self).next_id == old(self).next_id,
            !has_lobby(old(self).lobbies@, lobby_id) ==> r == Err::<(), ServerError>(
                ServerError::LobbyNotFound,
            ) && *final(self) == *old(self),
            has_lobby(old(self).lobbies@, lobby_id) && !has_member(
                lobby_at(old(self).lobbies@, lobby_id).members@,
                player_id,
            ) ==> r == Err::<(), ServerError>(ServerError::NotMember) && *final(self) == *old(
                self,
            ),
            has_lobby(old(self).lobbies@, lobby_id) && has_member(
                lobby_at(old(self).lobbies@, lobby_id).members@,
                player_id,
            ) ==> {
                let l0 = lobby_at(old(self).lobbies@, lobby_id);
                &&& r is Ok
                &&& has_lobby(final(self).lobbies@, lobby_id)
                &&& lobby_at(final(self).lobbies@, lobby_id).id == lobby_id
                &&& lobby_at(final(self).lobbies@, lobby_id).capacity == l0.capacity
                &&& lobby_at(final(self).lobbies@, lobby_id).members@ == l0.members@.update(
                    member_index(l0.members@, player_id),
                    (LobbyMember { id: player_id, ready: flag }),
                )
                &&& final(self).lobbies@ == old(self).lobbies@.update(
                    lobby_index(old(self).lobbies@, lobby_id),
                    lobby_at(final(self).lobbies@, lobby_id),
                )
                &&& forall|id2: u32|
                    #[trigger] has_lobby(final(self).lobbies@, id2) == has_lobby(
                        old(self).lobbies@,
                        id2,
                    )
                &&& forall|id2: u32|
                    id2 != lobby_id && has_lobby(old(self).lobbies@, id2) ==> #[trigger] lobby_at(
                        final(self).lobbies@,
                        id2,
                    ) == lobby_at(old(self).lobbies@, id2)
            },
    {
        let i = match self.index_of(lobby_id) {
            Some(i) => i,
            None => {
                return Err(ServerError::LobbyNotFound);
            },
        };
        if self.lobbies[i].index_of_member(player_id).is_none() {
            return Err(ServerError::NotMember);
        }
        let l = &mut self.lobbies[i];
        let r = l.set_ready(player_id, flag);
        proof {
            lemma_update_lobby(old(self).lobbies@, i as int, *final(l));
        }
        r
    }
}

/// After removing the member at `member_index(s, id)` from a duplicate-free
/// sequence, `id` is gone and every other identity keeps its member entry.
pub proof fn lemma_remove_member(s: Seq<LobbyMember>, id: u32)
    requires
        distinct_member_ids(s),
        has_member(s, id),
    ensures
        distinct_member_ids(s.remove(member_index(s, id))),
        !has_member(s.remove(member_index(s, id)), id),
        forall|id2: u32|
            id2 != id ==> #[trigger] has_member(s.remove(member_index(s, id)), id2) == has_member(
                s,
                id2,
            ),
        forall|id2: u32|
            id2 != id && has_member(s, id2) ==> #[trigger] member_at(
                s.remove(member_index(s, id)),
                id2,
            ) == member_at(s, id2),
{
    let k = member_index(s, id);
    let t = s.remove(k);
    assert forall|id2: u32| id2 != id implies #[trigger] has_member(t, id2) == has_member(
        s,
        id2,
    ) by {
        if has_member(s, id2) {
            let j = member_index(s, id2);
            assert(s[j].id == id2);
            if j < k {
                assert(t[j] == s[j]);
            } else {
                assert(s[j].id != s[k].id);
                assert(j > k);
                assert(t[j - 1] == s[j]);
            }
        }
        if has_member(t, id2) {
            let j = choose|i: int| 0 <= i < t.len() && t[i].id == id2;
            if j < k {
                assert(s[j] == t[j]);
            } else {
                assert(s[j + 1] == t[j]);
            }
        }
    }
    if has_member(t, id) {
        let j = choose|i: int| 0 <= i < t.len() && t[i].id == id;
        if j < k {
            assert(s[j].id == id);
            assert(s[k].id == id);
        } else {
            assert(s[j + 1].id == id);
            assert(s[k].id == id);
        }
    }
    assert forall|id2: u32| id2 != id && has_member(s, id2) implies #[trigger] member_at(t, id2)
        == member_at(s, id2) by {
        let j = member_index(s, id2);
        assert(s[j].id == id2);
        if j < k {
            assert(t[j] == s[j]);
        } else {
            assert(j != k);
            assert(t[j - 1] == s[j]);
        }
        let j2 = member_index(t, id2);
        assert(t[j2].id == id2);
        let back = if j2 < k {
            j2
        } else {
            j2 + 1
        };
        assert(s[back] == t[j2]);
        assert(back == j);
    }
}

/// Updating the member at a live index `i` with an entry that keeps the same
/// identity preserves distinctness, and `member_at` afterwards reads the new
/// entry at that identity and the old entry everywhere else.
pub proof fn lemma_update_member(s: Seq<LobbyMember>, i: int, m: LobbyMember)
    requires
        distinct_member_ids(s),
        0 <= i < s.len(),
        m.id == s[i].id,
    ensures
        distinct_member_ids(s.update(i, m)),
        forall|id2: u32| #[trigger] has_member(s.update(i, m), id2) == has_member(s, id2),
        member_index(s, m.id) == i,
        member_at(s.update(i, m), m.id) == m,
        forall|id2: u32|
            id2 != m.id && has_member(s, id2) ==> #[trigger] member_at(s.update(i, m), id2)
                == member_at(s, id2),
{
    let t = s.update(i, m);
    assert forall|id2: u32| #[trigger] has_member(t, id2) == has_member(s, id2) by {
        if has_member(s, id2) {
            let j = member_index(s, id2);
            if j == i {
                assert(t[i].id == m.id && s[i].id == id2);
            } else {
                assert(t[j] == s[j]);
            }
        }
        if has_member(t, id2) {
            let j = choose|x: int| 0 <= x < t.len() && t[x].id == id2;
            if j == i {
                assert(s[i].id == m.id);
            } else {
                assert(s[j] == t[j]);
            }
        }
    }
    let k = member_index(s, m.id);
    assert(s[i].id == m.id);
    if k != i {
        assert(s[k].id == m.id);
        assert(false);
    }
    let k2 = member_index(t, m.id);
    assert(t[i].id == m.id);
    if k2 != i {
        assert(t[k2].id == m.id);
        assert(s[k2] == t[k2]);
        assert(false);
    }
    assert forall|id2: u32| id2 != m.id && has_member(s, id2) implies #[trigger] member_at(t, id2)
        == member_at(s, id2) by {
        let j = member_index(s, id2);
        assert(s[j].id == id2);
        assert(j != i);
        assert(t[j] == s[j]);
        let j2 = member_index(t, id2);
        assert(t[j2].id == id2);
        assert(j2 != i);
        assert(s[j2] == t[j2]);
        assert(j2 == j);
    }
}

/// Pushing a member with a fresh identity keeps distinctness; the new
/// identity becomes present and every other identity keeps its entry.
pub proof fn lemma_push_member(s: Seq<LobbyMember>, m: LobbyMember)
    requires
        distinct_member_ids(s),
        !has_member(s, m.id),
    ensures
        distinct_member_ids(s.push(m)),
        has_member(s.push(m), m.id),
        member_at(s.push(m), m.id) == m,
        forall|id2: u32|
            id2 != m.id ==> #[trigger] has_member(s.push(m), id2) == has_member(s, id2),
        forall|id2: u32|
            id2 != m.id && has_member(s, id2) ==> #[trigger] member_at(s.push(m), id2) == member_at(
                s,
                id2,
            ),
{
    let t = s.push(m);
    assert(t[s.len() as int] == m);
    assert forall|i: int, j: int| 0 <= i < j < t.len() implies t[i].id != t[j].id by {
        if j < s.len() {
            assert(t[i] == s[i] && t[j] == s[j]);
        } else {
            assert(t[i] == s[i]);
            if t[i].id == m.id {
                assert(has_member(s, m.id));
            }
        }
    }
    let k = member_index(t, m.id);
    if k != s.len() {
        assert(t[k].id == m.id);
        assert(s[k] == t[k]);
        assert(has_member(s, m.id));
    }
    assert forall|id2: u32| id2 != m.id implies #[trigger] has_member(t, id2) == has_member(
        s,
        id2,
    ) by {
        if has_member(s, id2) {
            let j = member_index(s, id2);
            assert(t[j] == s[j]);
        }
        if has_member(t, id2) {
            let j = choose|x: int| 0 <= x < t.len() && t[x].id == id2;
            assert(j < s.len());
            assert(s[j] == t[j]);
        }
    }
    assert forall|id2: u32| id2 != m.id && has_member(s, id2) implies #[trigger] member_at(t, id2)
        == member_at(s, id2) by {
        let j = member_index(s, id2);
        assert(s[j].id == id2);
        assert(t[j] == s[j]);
        let j2 = member_index(t, id2);
        assert(t[j2].id == id2);
        assert(j2 < s.len());
        assert(s[j2] == t[j2]);
        assert(j2 == j);
    }
}

/// Updating the lobby at a live index `i` with a lobby that keeps the same
/// identity preserves distinctness, and `lobby_at` afterwards reads the new
/// lobby at that identity and the old lobby everywhere else.
pub proof fn lemma_update_lobby(s: Seq<Lobby>, i: int, l: Lobby)
    requires
        distinct_lobby_ids(s),
        0 <= i < s.len(),
        l.id == s[i].id,
    ensures
        distinct_lobby_ids(s.update(i, l)),
        forall|id2: u32| #[trigger] has_lobby(s.update(i, l), id2) == has_lobby(s, id2),
        lobby_index(s, l.id) == i,
        lobby_at(s.update(i, l), l.id) == l,
        forall|id2: u32|
            id2 != l.id && has_lobby(s, id2) ==> #[trigger] lobby_at(s.update(i, l), id2)
                == lobby_at(s, id2),
{
    let t = s.update(i, l);
    assert forall|id2: u32| #[trigger] has_lobby(t, id2) == has_lobby(s, id2) by {
        if has_lobby(s, id2) {
            let j = lobby_index(s, id2);
            if j == i {
                assert(t[i].id == l.id && s[i].id == id2);
            } else {
                assert(t[j] == s[j]);
            }
        }
        if has_lobby(t, id2) {
            let j = choose|x: int| 0 <= x < t.len() && t[x].id == id2;
            if j == i {
                assert(s[i].id == l.id);
            } else {
                assert(s[j] == t[j]);
            }
        }
    }
    let k = lobby_index(s, l.id);
    assert(s[i].id == l.id);
    if k != i {
        assert(s[k].id == l.id);
        assert(false);
    }
    let k2 = lobby_index(t, l.id);
    assert(t[i].id == l.id);
    if k2 != i {
        assert(t[k2].id == l.id);
        assert(s[k2] == t[k2]);
        assert(false);
    }
    assert forall|id2: u32| id2 != l.id && has_lobby(s, id2) implies #[trigger] lobby_at(t, id2)
        == lobby_at(s, id2) by {
        let j = lobby_index(s, id2);
        assert(s[j].id == id2);
        assert(j != i);
        assert(t[j] == s[j]);
        let j2 = lobby_index(t, id2);
        assert(t[j2].id == id2);
        assert(j2 != i);
        assert(s[j2] == t[j2]);
        assert(j2 == j);
    }
}

/// Pushing a lobby with a fresh identity keeps distinctness; the new identity
/// becomes present and every other identity keeps its lobby.
pub proof fn lemma_push_lobby(s: Seq<Lobby>, l: Lobby)
    requires
        distinct_lobby_ids(s),
        !has_lobby(s, l.id),
    ensures
        distinct_lobby_ids(s.push(l)),
        has_lobby(s.push(l), l.id),
        lobby_at(s.push(l), l.id) == l,
        forall|id2: u32| id2 != l.id ==> #[trigger] has_lobby(s.push(l), id2) == has_lobby(s, id2),
        forall|id2: u32|
            id2 != l.id && has_lobby(s, id2) ==> #[trigger] lobby_at(s.push(l), id2) == lobby_at(
                s,
                id2,
            ),
{
    let t = s.push(l);
    assert(t[s.len() as int] == l);
    assert forall|i: int, j: int| 0 <= i < j < t.len() implies t[i].id != t[j].id by {
        if j < s.len() {
            assert(t[i] == s[i] && t[j] == s[j]);
        } else {
            assert(t[i] == s[i]);
            if t[i].id == l.id {
                assert(has_lobby(s, l.id));
            }
        }
    }
    let k = lobby_index(t, l.id);
    if k != s.len() {
        assert(t[k].id == l.id);
        assert(s[k] == t[k]);
        assert(has_lobby(s, l.id));
    }
    assert forall|id2: u32| id2 != l.id implies #[trigger] has_lobby(t, id2) == has_lobby(
        s,
        id2,
    ) by {
        if has_lobby(s, id2) {
            let j = lobby_index(s, id2);
            assert(t[j] == s[j]);
        }
        if has_lobby(t, id2) {
            let j = choose|x: int| 0 <= x < t.len() && t[x].id == id2;
            assert(j < s.len());
            assert(s[j] == t[j]);
        }
    }
    assert forall|id2: u32| id2 != l.id && has_lobby(s, id2) implies #[trigger] lobby_at(t, id2)
        == lobby_at(s, id2) by {
        let j = lobby_index(s, id2);
        assert(s[j].id == id2);
        assert(t[j] == s[j]);
        let j2 = lobby_index(t, id2);
        assert(t[j2].id == id2);
        assert(j2 < s.len());
        assert(s[j2] == t[j2]);
        assert(j2 == j);
    }
}

/// After removing the lobby at `lobby_index(s, id)` from a duplicate-free
/// sequence, `id` is gone and every other identity keeps its lobby.
pub proof fn lemma_remove_lobby(s: Seq<Lobby>, id: u32)
    requires
        distinct_lobby_ids(s),
        has_lobby(s, id),
    ensures
        distinct_lobby_ids(s.remove(lobby_index(s, id))),
        !has_lobby(s.remove(lobby_index(s, id)), id),
        forall|id2: u32|
            id2 != id ==> #[trigger] has_lobby(s.remove(lobby_index(s, id)), id2) == has_lobby(
                s,
                id2,
            ),
        forall|id2: u32|
            id2 != id && has_lobby(s, id2) ==> #[trigger] lobby_at(
                s.remove(lobby_index(s, id)),
                id2,
            ) == lobby_at(s, id2),
{
    let k = lobby_index(s, id);
    let t = s.remove(k);
    assert forall|id2: u32| id2 != id implies #[trigger] has_lobby(t, id2) == has_lobby(
        s,
        id2,
    ) by {
        if has_lobby(s, id2) {
            let j = lobby_index(s, id2);
            assert(s[j].id == id2);
            if j < k {
                assert(t[j] == s[j]);
            } else {
                assert(s[j].id != s[k].id);
                assert(j > k);
                assert(t[j - 1] == s[j]);
            }
        }
        if has_lobby(t, id2) {
            let j = choose|i: int| 0 <= i < t.len() && t[i].id == id2;
            if j < k {
                assert(s[j] == t[j]);
            } else {
                assert(s[j + 1] == t[j]);
            }
        }
    }
    if has_lobby(t, id) {
        let j = choose|i: int| 0 <= i < t.len() && t[i].id == id;
        if j < k {
            assert(s[j].id == id);
            assert(s[k].id == id);
        } else {
            assert(s[j + 1].id == id);
            assert(s[k].id == id);
        }
    }
    assert forall|id2: u32| id2 != id && has_lobby(s, id2) implies #[trigger] lobby_at(t, id2)
        == lobby_at(s, id2) by {
        let j = lobby_index(s, id2);
        assert(s[j].id == id2);
        if j < k {
            assert(t[j] == s[j]);
        } else {
            assert(j != k);
            assert(t[j - 1] == s[j]);
        }
        let j2 = lobby_index(t, id2);
        assert(t[j2].id == id2);
        let back = if j2 < k {
            j2
        } else {
            j2 + 1
        };
        assert(s[back] == t[j2]);
        assert(back == j);
    }
}

/// What one join attempt by `id` leaves of the member list, per
/// `Lobby::add_player`'s contract: already a member or at capacity leaves the
/// list unchanged (the caller got `AlreadyMember` or `Full`), otherwise the
/// new member is appended.
pub open spec fn join_step(members: Seq<LobbyMember>, capacity: int, id: u32) -> Seq<LobbyMember> {
    if has_member(members, id) {
        members
    } else if members.len() >= capacity {
        members
    } else {
        members.push(LobbyMember { id, ready: false })
    }
}

/// The member list after each identity of `ids` attempts to join in turn.
pub open spec fn join_all(members: Seq<LobbyMember>, capacity: int, ids: Seq<u32>) -> Seq<
    LobbyMember,
>
    decreases ids.len(),
{
    if ids.len() == 0 {
        members
    } else {
        join_all(join_step(members, capacity, ids[0]), capacity, ids.skip(1))
    }
}

/// Join attempts by distinct identities, none of them a member yet, admit
/// exactly as many as fit: the lobby fills to `min(members + ids, capacity)`
/// members, and the attempts beyond that point leave the list unchanged —
/// those callers received `Full` from `add_player`.
pub proof fn lemma_join_fills_to_capacity(members: Seq<LobbyMember>, capacity: int, ids: Seq<u32>)
    requires
        distinct_member_ids(members),
        members.len() <= capacity,
        forall|i: int, j: int| 0 <= i < j < ids.len() ==> ids[i] != ids[j],
        forall|i: int| 0 <= i < ids.len() ==> !has_member(members, #[trigger] ids[i]),
    ensures
        join_all(members, capacity, ids).len() == if members.len() + ids.len() <= capacity {
            members.len() + ids.len()
        } else {
            capacity as nat
        },
        distinct_member_ids(join_all(members, capacity, ids)),
    decreases ids.len(),
{
    if ids.len() == 0 {
    } else {
        let id = ids[0];
        let rest = ids.skip(1);
        let stepped = join_step(members, capacity, id);
        if members.len() >= capacity {
            assert(stepped == members);
            assert forall|i: int| 0 <= i < rest.len() implies !has_member(
                stepped,
                #[trigger] rest[i],
            ) by {
                assert(rest[i] == ids[i + 1]);
            }
            lemma_join_fills_to_capacity(stepped, capacity, rest);
        } else {
            let m = LobbyMember { id, ready: false };
            lemma_push_member(members, m);
            assert(stepped == members.push(m));
            assert forall|i: int| 0 <= i < rest.len() implies !has_member(
                stepped,
                #[trigger] rest[i],
            ) by {
                assert(rest[i] == ids[i + 1]);
                assert(ids[i + 1] != ids[0]);
            }
            assert forall|i: int, j: int| 0 <= i < j < rest.len() implies rest[i] != rest[j] by {
                assert(rest[i] == ids[i + 1] && rest[j] == ids[j + 1]);
            }
            lemma_join_fills_to_capacity(stepped, capacity, rest);
        }
    }
}

} // verus!
