use vstd::prelude::*;

use crate::error::ServerError;
use crate::frame::{
    ConnectResponse, CreateResponse, DisconnectResponse, HeartbeatResponse, JoinResponse,
    LobbyInfo, QuitResponse, Request, Response, SetTileResponse,
};
use crate::game::{Games, game_index, has_game, has_gplayer};
use crate::lobby::{
    Lobbies, Lobby, LobbyMember, distinct_member_ids, has_lobby, has_member, lobby_at,
    lobby_index, member_index,
};
use crate::player::{Player, PlayerRegistry, has_player, player_at, player_index};
use crate::timeout::TimeoutScheduler;

verus! {

/// How many members a freshly created lobby admits. Part of the
/// configuration surface; fixed here for the whole server instance.
pub const DEFAULT_LOBBY_CAPACITY: usize = 4;

/// The fewest lobby members a game can start with.
pub const MIN_GAME_PLAYERS: usize = 2;

/// The shared-state core of the server: the four registries every
/// per-connection task and the timeout sweep operate on. In the running
/// program one instance sits behind a lock; each handler below is one
/// serialized registry transaction.
#[derive(Debug)]
pub struct Server {
    pub players: PlayerRegistry,
    pub lobbies: Lobbies,
    pub games: Games,
    pub timeouts: TimeoutScheduler,
    pub lobby_capacity: usize,
}

impl Server {
    /// The online player records.
    pub open spec fn pview(self) -> Seq<Player> {
        self.players.players@
    }

    /// The live lobbies.
    pub open spec fn lview(self) -> Seq<Lobby> {
        self.lobbies.lobbies@
    }

    /// The in-progress games.
    pub open spec fn gview(self) -> Seq<crate::game::Game> {
        self.games.games@
    }

    /// The liveness entries: one per connected identity, with its
    /// last-heartbeat stamp.
    pub open spec fn times(self) -> Map<u32, u64> {
        self.timeouts.times()
    }

    /// Exactly the registered identities carry a timeout entry.
    pub open spec fn timeouts_match(self) -> bool {
        forall|id: u32|
            #![trigger self.timeouts.times().dom().contains(id)]
            #![trigger has_player(self.players.players@, id)]
            self.timeouts.times().dom().contains(id) == has_player(self.players.players@, id)
    }

    /// A player record that names a lobby points at a live lobby that lists
    /// the player as a member.
    pub open spec fn lobby_links(self) -> bool {
        forall|id: u32|
            has_player(self.players.players@, id) && (#[trigger] player_at(
                self.players.players@,
                id,
            )).lobby_id is Some ==> {
                let l = player_at(self.players.players@, id).lobby_id->0;
                &&& has_lobby(self.lobbies.lobbies@, l)
                &&& has_member(lobby_at(self.lobbies.lobbies@, l).members@, id)
            }
    }

    /// A player record that names a game points at a live game that lists
    /// the player as a participant.
    pub open spec fn game_links(self) -> bool {
        forall|id: u32|
            has_player(self.players.players@, id) && (#[trigger] player_at(
                self.players.players@,
                id,
            )).game_id is Some ==> {
                let g = player_at(self.players.players@, id).game_id->0;
                &&& has_game(self.games.games@, g)
                &&& has_gplayer(game_at_s(self.games.games@, g).players@, id)
            }
    }

    /// Every lobby member is a registered player whose record names exactly
    /// that lobby.
    pub open spec fn lobby_members_linked(self) -> bool {
        forall|i: int, j: int|
            #![trigger self.lobbies.lobbies@[i].members@[j]]
            0 <= i < self.lobbies.lobbies@.len() && 0 <= j
                < self.lobbies.lobbies@[i].members@.len() ==> {
                let mid = self.lobbies.lobbies@[i].members@[j].id;
                &&& has_player(self.players.players@, mid)
                &&& player_at(self.players.players@, mid).lobby_id == Some(
                    self.lobbies.lobbies@[i].id,
                )
            }
    }

    /// Every game participant is a registered player whose record names
    /// exactly that game.
    pub open spec fn game_members_linked(self) -> bool {
        forall|i: int, j: int|
            #![trigger self.games.games@[i].players@[j]]
            0 <= i < self.games.games@.len() && 0 <= j < self.games.games@[i].players@.len()
                ==> {
                let mid = self.games.games@[i].players@[j].id;
                &&& has_player(self.players.players@, mid)
                &&& player_at(self.players.players@, mid).game_id == Some(
                    self.games.games@[i].id,
                )
            }
    }

    /// The cross-registry invariant every handler preserves: well-formed
    /// registries, one timeout entry per registered identity, and lobby and
    /// game membership links that agree in both directions — which also
    /// keeps lobby and game membership mutually exclusive per player.
    pub open spec fn wf(self) -> bool {
        &&& self.players.wf()
        &&& self.lobbies.wf()
        &&& self.games.wf()
        &&& self.timeouts.inv()
        &&& self.lobby_capacity >= 1
        &&& self.timeouts_match()
        &&& self.lobby_links()
        &&& self.game_links()
        &&& self.lobby_members_linked()
        &&& self.game_members_linked()
    }

    /// A fresh server: no players, no lobbies, no games, nothing tracked.
    pub fn new() -> (r: Server)
        ensures
            r.wf(),
            r.pview() =~= Seq::<Player>::empty(),
            r.lview() =~= Seq::<Lobby>::empty(),
            r.gview() =~= Seq::<crate::game::Game>::empty(),
            r.times() =~= Map::<u32, u64>::empty(),
            r.lobbies.next_id == 0,
            r.games.next_id == 0,
            r.lobby_capacity == DEFAULT_LOBBY_CAPACITY,
    {
        Server {
            players: PlayerRegistry::new(),
            lobbies: Lobbies::new(),
            games: Games::new(),
            timeouts: TimeoutScheduler::new(),
            lobby_capacity: DEFAULT_LOBBY_CAPACITY,
        }
    }

    /// Register `client_id` under `name` and start tracking its liveness
    /// with `now` as first heartbeat; `AlreadyConnected` if a record exists.
    pub fn connect(&mut self, client_id: u32, name: String, now: u64) -> (r: Result<
        (),
        ServerError,
    >)
        requires
            old(self).wf(),
        ensures
            final(self).wf(),
            has_player(old(self).pview(), client_id) ==> r == Err::<(), ServerError>(
                ServerError::AlreadyConnected,
            ) && *final(self) == *old(self),
            !has_player(old(self).pview(), client_id) ==> r is Ok && connect_effect(
                *old(self),
                *final(self),
                client_id,
                name,
                now,
            ),
    {
        let ghost pre = *self;
        match self.players.register(client_id, name) {
            Ok(()) => {
                proof {
                    crate::player::lemma_push_player(
                        pre.pview(),
                        self.players.players@.last(),
                    );
                }
                self.timeouts.track(client_id, now);
                proof {
                    let post = *self;
                    assert forall|id: u32| #[trigger] post.times().dom().contains(id)
                        == has_player(post.pview(), id) by {
                        if id != client_id {
                            assert(pre.times().dom().contains(id) == has_player(
                                pre.pview(),
                                id,
                            ));
                        }
                    }
                    assert(post.lobby_links()) by {
                        assert forall|id: u32|
                            has_player(post.pview(), id) && (#[trigger] player_at(
                                post.pview(),
                                id,
                            )).lobby_id is Some implies {
                            let l = player_at(post.pview(), id).lobby_id->0;
                            &&& has_lobby(post.lview(), l)
                            &&& has_member(lobby_at(post.lview(), l).members@, id)
                        } by {
                            assert(id != client_id);
                            assert(player_at(post.pview(), id) == player_at(pre.pview(), id));
                            assert(has_player(pre.pview(), id));
                        }
                    }
                    assert(post.game_links()) by {
                        assert forall|id: u32|
                            has_player(post.pview(), id) && (#[trigger] player_at(
                                post.pview(),
                                id,
                            )).game_id is Some implies {
                            let g = player_at(post.pview(), id).game_id->0;
                            &&& has_game(post.gview(), g)
                            &&& has_gplayer(game_at_s(post.gview(), g).players@, id)
                        } by {
                            assert(id != client_id);
                            assert(player_at(post.pview(), id) == player_at(pre.pview(), id));
                            assert(has_player(pre.pview(), id));
                        }
                    }
                    assert(post.lobby_members_linked()) by {
                        assert forall|i: int, j: int|
                            #![trigger post.lobbies.lobbies@[i].members@[j]]
                            0 <= i < post.lview().len() && 0 <= j
                                < post.lview()[i].members@.len() implies {
                            let mid = post.lview()[i].members@[j].id;
                            &&& has_player(post.pview(), mid)
                            &&& player_at(post.pview(), mid).lobby_id == Some(post.lview()[i].id)
                        } by {
                            let mid = pre.lview()[i].members@[j].id;
                            assert(has_player(pre.pview(), mid));
                            assert(mid != client_id);
                        }
                    }
                    assert(post.game_members_linked()) by {
                        assert forall|i: int, j: int|
                            #![trigger post.games.games@[i].players@[j]]
                            0 <= i < post.gview().len() && 0 <= j
                                < post.gview()[i].players@.len() implies {
                            let mid = post.gview()[i].players@[j].id;
                            &&& has_player(post.pview(), mid)
                            &&& player_at(post.pview(), mid).game_id == Some(post.gview()[i].id)
                        } by {
                            let mid = pre.gview()[i].players@[j].id;
                            assert(has_player(pre.pview(), mid));
                            assert(mid != client_id);
                        }
                    }
                }
                Ok(())
            },
            Err(e) => Err(e),
        }
    }

    /// Refresh `client_id`'s liveness entry with `now`; `PlayerNotFound` if
    /// the identity is not registered.
    pub fn heartbeat(&mut self, client_id: u32, now: u64) -> (r: Result<(), ServerError>)
        requires
            old(self).wf(),
        ensures
            final(self).wf(),
            !has_player(old(self).pview(), client_id) ==> r == Err::<(), ServerError>(
                ServerError::PlayerNotFound,
            ) && *final(self) == *old(self),
            has_player(old(self).pview(), client_id) ==> r is Ok && heartbeat_effect(
                *old(self),
                *final(self),
                client_id,
                now,
            ),
    {
        let r = self.timeouts.touch(client_id, now);
        proof {
            if old(self).times().dom().contains(client_id) {
                assert forall|id: u32| #[trigger] self.times().dom().contains(id) == has_player(
                    self.pview(),
                    id,
                ) by {
                    assert(old(self).times().dom().contains(id) == has_player(
                        old(self).pview(),
                        id,
                    ));
                }
            }
        }
        r
    }

    /// Create a lobby with the caller as sole member and return its
    /// snapshot. The caller must be registered and belong to no lobby and no
    /// game yet.
    pub fn create_lobby(&mut self, client_id: u32) -> (r: Result<LobbyInfo, ServerError>)
        requires
            old(self).wf(),
            old(self).lobbies.next_id < u32::MAX,
        ensures
            final(self).wf(),
            !has_player(old(self).pview(), client_id) ==> r == Err::<LobbyInfo, ServerError>(
                ServerError::PlayerNotFound,
            ) && *final(self) == *old(self),
            has_player(old(self).pview(), client_id) && !free_player(old(self).pview(), client_id)
                ==> r == Err::<LobbyInfo, ServerError>(ServerError::AlreadyMember) && *final(self)
                == *old(self),
            has_player(old(self).pview(), client_id) && free_player(old(self).pview(), client_id)
                ==> {
                let nid = old(self).lobbies.next_id;
                &&& r is Ok
                &&& (r matches Ok(info) ==> info.id == nid && info.players@ == seq![client_id])
                &&& create_lobby_effect(*old(self), *final(self), client_id)
            },
    {
        let ghost pre = *self;
        let (lopt, gopt) = match self.players.lookup(client_id) {
            None => {
                return Err(ServerError::PlayerNotFound);
            },
            Some(p) => (p.lobby_id, p.game_id),
        };
        if lopt.is_some() || gopt.is_some() {
            return Err(ServerError::AlreadyMember);
        }
        let cap = self.lobby_capacity;
        let nid = self.lobbies.create_lobby(cap);
        let ghost s1 = *self;
        let radd = self.lobbies.add_member(nid, client_id);
        proof {
            assert(lobby_at(s1.lview(), nid).members@.len() == 0);
            assert(radd is Ok);
        }
        let ghost s2 = *self;
        let okb = self.players.set_lobby(client_id, Some(nid));
        proof {
            assert(okb);
            let n0 = pre.lview().len() as int;
            let post = *self;
            // the fresh lobby sits at the end; everything before it is as it was
            assert(s1.lview()[n0].id == nid);
            assert(lobby_index(s1.lview(), nid) == n0) by {
                let k = lobby_index(s1.lview(), nid);
                if k != n0 {
                    assert(s1.lview()[k].id == nid);
                    assert(s1.lview()[k] == pre.lview()[k]);
                }
            }
            assert forall|i: int|
                0 <= i < post.lview().len() && (#[trigger] post.lview()[i]).id != nid implies {
                &&& has_lobby(pre.lview(), post.lview()[i].id)
                &&& lobby_at(pre.lview(), post.lview()[i].id) == post.lview()[i]
            } by {
                assert(i != n0);
                assert(post.lview()[i] == s1.lview()[i]);
                assert(post.lview()[i] == pre.lview()[i]);
                let lid2 = pre.lview()[i].id;
                let k = lobby_index(pre.lview(), lid2);
                if k != i {
                    assert(pre.lview()[k].id == lid2);
                }
            }
            lemma_wf_after_join(pre, post, client_id, nid, Seq::<LobbyMember>::empty());
        }
        let mut member_ids: Vec<u32> = Vec::new();
        member_ids.push(client_id);
        proof {
            assert(member_ids@ =~= seq![client_id]);
        }
        Ok(LobbyInfo { id: nid, players: member_ids })
    }

    /// Add the caller to the lobby `lobby_id` and return that lobby's
    /// snapshot. The caller must be registered and belong to no lobby and no
    /// game yet; the lobby must exist and have room.
    pub fn join_lobby(&mut self, client_id: u32, lobby_id: u32) -> (r: Result<
        LobbyInfo,
        ServerError,
    >)
        requires
            old(self).wf(),
        ensures
            final(self).wf(),
            !has_lobby(old(self).lview(), lobby_id) ==> r == Err::<LobbyInfo, ServerError>(
                ServerError::LobbyNotFound,
            ) && *final(self) == *old(self),
            has_lobby(old(self).lview(), lobby_id) && !has_player(old(self).pview(), client_id)
                ==> r == Err::<LobbyInfo, ServerError>(ServerError::PlayerNotFound) && *final(self)
                == *old(self),
            has_lobby(old(self).lview(), lobby_id) && has_player(old(self).pview(), client_id)
                && !free_player(old(self).pview(), client_id) ==> r == Err::<
                LobbyInfo,
                ServerError,
            >(ServerError::AlreadyMember) && *final(self) == *old(self),
            has_lobby(old(self).lview(), lobby_id) && has_player(old(self).pview(), client_id)
                && free_player(old(self).pview(), client_id) && lobby_at(
                old(self).lview(),
                lobby_id,
            ).members@.len() >= lobby_at(old(self).lview(), lobby_id).capacity ==> r == Err::<
                LobbyInfo,
                ServerError,
            >(ServerError::Full) && *final(self) == *old(self),
            has_lobby(old(self).lview(), lobby_id) && has_player(old(self).pview(), client_id)
                && free_player(old(self).pview(), client_id) && lobby_at(
                old(self).lview(),
                lobby_id,
            ).members@.len() < lobby_at(old(self).lview(), lobby_id).capacity ==> {
                &&& r is Ok
                &&& (r matches Ok(info) ==> info.id == lobby_id && info.players@ == lobby_at(
                    final(self).lview(),
                    lobby_id,
                ).member_ids())
                &&& join_lobby_effect(*old(self), *final(self), client_id, lobby_id)
            },
    {
        let ghost pre = *self;
        if self.lobbies.index_of(lobby_id).is_none() {
            return Err(ServerError::LobbyNotFound);
        }
        let (lopt, gopt) = match self.players.lookup(client_id) {
            None => {
                return Err(ServerError::PlayerNotFound);
            },
            Some(p) => (p.lobby_id, p.game_id),
        };
        if lopt.is_some() || gopt.is_some() {
            return Err(ServerError::AlreadyMember);
        }
        proof {
            // a player in no lobby is a member of none, by the reverse link
            if has_member(lobby_at(pre.lview(), lobby_id).members@, client_id) {
                let li = lobby_index(pre.lview(), lobby_id);
                let mj = member_index(lobby_at(pre.lview(), lobby_id).members@, client_id);
                assert(pre.lview()[li].members@[mj].id == client_id);
            }
        }
        let radd = self.lobbies.add_member(lobby_id, client_id);
        match radd {
            Err(e) => {
                proof {
                    assert(e == ServerError::Full);
                }
                Err(e)
            },
            Ok(()) => {
                let okb = self.players.set_lobby(client_id, Some(lobby_id));
                proof {
                    assert(okb);
                    let post = *self;
                    let k = lobby_index(pre.lview(), lobby_id);
                    assert forall|i: int|
                        0 <= i < post.lview().len() && (#[trigger] post.lview()[i]).id != lobby_id
                            implies {
                        &&& has_lobby(pre.lview(), post.lview()[i].id)
                        &&& lobby_at(pre.lview(), post.lview()[i].id) == post.lview()[i]
                    } by {
                        assert(i != k);
                        assert(post.lview()[i] == pre.lview()[i]);
                        let lid2 = pre.lview()[i].id;
                        let k2 = lobby_index(pre.lview(), lid2);
                        if k2 != i {
                            assert(pre.lview()[k2].id == lid2);
                        }
                    }
                    lemma_wf_after_join(
                        pre,
                        post,
                        client_id,
                        lobby_id,
                        lobby_at(pre.lview(), lobby_id).members@,
                    );
                }
                let li = match self.lobbies.index_of(lobby_id) {
                    Some(li) => li,
                    None => {
                        proof {
                            assert(false);
                        }
                        return Err(ServerError::LobbyNotFound);
                    },
                };
                let ids = self.lobbies.lobbies[li].member_id_vec();
                Ok(LobbyInfo { id: lobby_id, players: ids })
            },
        }
    }

    /// Remove the caller from its lobby; a lobby left by its last member is
    /// destroyed, eagerly. A registered caller in no lobby gets
    /// `LobbyNotFound`, mirroring how the handler table surfaces
    /// not-in-lobby.
    pub fn quit_lobby(&mut self, client_id: u32) -> (r: Result<(), ServerError>)
        requires
            old(self).wf(),
        ensures
            final(self).wf(),
            !has_player(old(self).pview(), client_id) ==> r == Err::<(), ServerError>(
                ServerError::PlayerNotFound,
            ) && *final(self) == *old(self),
            has_player(old(self).pview(), client_id) && player_at(
                old(self).pview(),
                client_id,
            ).lobby_id is None ==> r == Err::<(), ServerError>(ServerError::LobbyNotFound)
                && *final(self) == *old(self),
            has_player(old(self).pview(), client_id) && player_at(
                old(self).pview(),
                client_id,
            ).lobby_id is Some ==> r is Ok && quit_lobby_effect(
                *old(self),
                *final(self),
                client_id,
            ),
    {
        let ghost pre = *self;
        let lopt = match self.players.lookup(client_id) {
            None => {
                return Err(ServerError::PlayerNotFound);
            },
            Some(p) => p.lobby_id,
        };
        let lid = match lopt {
            None => {
                return Err(ServerError::LobbyNotFound);
            },
            Some(l) => l,
        };
        proof {
            assert((player_at(pre.pview(), client_id)).lobby_id is Some);
            assert(has_lobby(pre.lview(), lid) && has_member(
                lobby_at(pre.lview(), lid).members@,
                client_id,
            ));
        }
        let rrm = self.lobbies.remove_member(lid, client_id);
        let destroyed = match rrm {
            Ok(d) => d,
            Err(_) => {
                proof {
                    assert(false);
                }
                return Err(ServerError::LobbyNotFound);
            },
        };
        let okb = self.players.set_lobby(client_id, None);
        proof {
            assert(okb);
            lemma_wf_after_leave(pre, *self, client_id, lid, destroyed);
        }
        Ok(())
    }

    /// Set the caller's readiness flag in its lobby. A registered caller in
    /// no lobby gets `NotMember`.
    pub fn set_ready(&mut self, client_id: u32, flag: bool) -> (r: Result<(), ServerError>)
        requires
            old(self).wf(),
        ensures
            final(self).wf(),
            !has_player(old(self).pview(), client_id) ==> r == Err::<(), ServerError>(
                ServerError::PlayerNotFound,
            ) && *final(self) == *old(self),
            has_player(old(self).pview(), client_id) && player_at(
                old(self).pview(),
                client_id,
            ).lobby_id is None ==> r == Err::<(), ServerError>(ServerError::NotMember)
                && *final(self) == *old(self),
            has_player(old(self).pview(), client_id) && player_at(
                old(self).pview(),
                client_id,
            ).lobby_id is Some ==> {
                let l = player_at(old(self).pview(), client_id).lobby_id->0;
                let base = lobby_at(old(self).lview(), l).members@;
                &&& r is Ok
                &&& final(self).players == old(self).players
                &&& has_lobby(final(self).lview(), l)
                &&& lobby_at(final(self).lview(), l).members@ == base.update(
                    member_index(base, client_id),
                    (LobbyMember { id: client_id, ready: flag }),
                )
                &&& lobby_at(final(self).lview(), l).capacity == lobby_at(
                    old(self).lview(),
                    l,
                ).capacity
                &&& forall|id2: u32|
                    #[trigger] has_lobby(final(self).lview(), id2) == has_lobby(
                        old(self).lview(),
                        id2,
                    )
                &&& forall|id2: u32|
                    id2 != l && has_lobby(old(self).lview(), id2) ==> #[trigger] lobby_at(
                        final(self).lview(),
                        id2,
                    ) == lobby_at(old(self).lview(), id2)
                &&& final(self).times() == old(self).times()
                &&& final(self).games == old(self).games
                &&& final(self).lobbies.next_id == old(self).lobbies.next_id
                &&& final(self).lobby_capacity == old(self).lobby_capacity
            },
    {
        let ghost pre = *self;
        let lopt = match self.players.lookup(client_id) {
            None => {
                return Err(ServerError::PlayerNotFound);
            },
            Some(p) => p.lobby_id,
        };
        let lid = match lopt {
            None => {
                return Err(ServerError::NotMember);
            },
            Some(l) => l,
        };
        proof {
            assert((player_at(pre.pview(), client_id)).lobby_id is Some);
            assert(has_lobby(pre.lview(), lid) && has_member(
                lobby_at(pre.lview(), lid).members@,
                client_id,
            ));
        }
        let rsr = self.lobbies.set_member_ready(lid, client_id, flag);
        proof {
            assert(rsr is Ok);
            let post = *self;
            let k = lobby_index(pre.lview(), lid);
            let base = lobby_at(pre.lview(), lid).members@;
            let mj = member_index(base, client_id);
            assert(distinct_member_ids(base)) by {
                assert(pre.lview()[k].wf());
            }
            crate::lobby::lemma_update_member(
                base,
                mj,
                (LobbyMember { id: client_id, ready: flag }),
            );
            assert(post.timeouts_match()) by {
                assert forall|id: u32| #[trigger] post.times().dom().contains(id) == has_player(
                    post.pview(),
                    id,
                ) by {
                    assert(pre.times().dom().contains(id) == has_player(pre.pview(), id));
                }
            }
            assert(post.lobby_links()) by {
                assert forall|id: u32|
                    has_player(post.pview(), id) && (#[trigger] player_at(
                        post.pview(),
                        id,
                    )).lobby_id is Some implies {
                    let l = player_at(post.pview(), id).lobby_id->0;
                    &&& has_lobby(post.lview(), l)
                    &&& has_member(lobby_at(post.lview(), l).members@, id)
                } by {
                    assert(player_at(post.pview(), id) == player_at(pre.pview(), id));
                    assert(has_player(pre.pview(), id));
                    let l = player_at(pre.pview(), id).lobby_id->0;
                    assert(has_lobby(pre.lview(), l) && has_member(
                        lobby_at(pre.lview(), l).members@,
                        id,
                    ));
                    if l != lid {
                        assert(lobby_at(post.lview(), l) == lobby_at(pre.lview(), l));
                    }
                }
            }
            assert(post.game_links()) by {
                assert forall|id: u32|
                    has_player(post.pview(), id) && (#[trigger] player_at(
                        post.pview(),
                        id,
                    )).game_id is Some implies {
                    let g = player_at(post.pview(), id).game_id->0;
                    &&& has_game(post.gview(), g)
                    &&& has_gplayer(game_at_s(post.gview(), g).players@, id)
                } by {
                    assert(player_at(post.pview(), id) == player_at(pre.pview(), id));
                    assert(has_player(pre.pview(), id));
                }
            }
            assert(post.lobby_members_linked()) by {
                assert forall|i: int, j: int|
                    #![trigger post.lobbies.lobbies@[i].members@[j]]
                    0 <= i < post.lview().len() && 0 <= j < post.lview()[i].members@.len() implies {
                    let mid = post.lview()[i].members@[j].id;
                    &&& has_player(post.pview(), mid)
                    &&& player_at(post.pview(), mid).lobby_id == Some(post.lview()[i].id)
                } by {
                    if i == k {
                        assert(post.lview()[i] == lobby_at(post.lview(), lid)) by {
                            let k3 = lobby_index(post.lview(), lid);
                            if k3 != i {
                                assert(post.lview()[k3].id == lid);
                            }
                        }
                        if j == mj {
                            assert(post.lview()[i].members@[j].id == client_id);
                        } else {
                            assert(post.lview()[i].members@[j] == base[j]);
                            assert(pre.lview()[k].members@[j].id == post.lview()[i].members@[j].id);
                        }
                    } else {
                        assert(post.lview()[i] == pre.lview()[i]);
                        assert(pre.lview()[i].members@[j].id == post.lview()[i].members@[j].id);
                    }
                }
            }
            assert(post.game_members_linked()) by {
                assert forall|i: int, j: int|
                    #![trigger post.games.games@[i].players@[j]]
                    0 <= i < post.gview().len() && 0 <= j < post.gview()[i].players@.len() implies {
                    let mid = post.gview()[i].players@[j].id;
                    &&& has_player(post.pview(), mid)
                    &&& player_at(post.pview(), mid).game_id == Some(post.gview()[i].id)
                } by {
                    assert(pre.gview()[i].players@[j].id == post.gview()[i].players@[j].id);
                }
            }
        }
        Ok(())
    }

    /// Tear down the registered identity `client_id`: the player record is
    /// removed, its timeout entry untracked, and whatever lobby or game
    /// membership the record held is cleaned up — the same path serves
    /// explicit disconnect requests and sweep-synthesized ones.
    pub fn disconnect(&mut self, client_id: u32) -> (r: Result<(), ServerError>)
        requires
            old(self).wf(),
        ensures
            final(self).wf(),
            !has_player(old(self).pview(), client_id) ==> r == Err::<(), ServerError>(
                ServerError::PlayerNotFound,
            ) && *final(self) == *old(self),
            has_player(old(self).pview(), client_id) ==> r is Ok && disconnect_effect(
                *old(self),
                *final(self),
                client_id,
            ),
    {
        let ghost pre = *self;
        let p = match self.players.deregister(client_id) {
            Err(e) => {
                return Err(e);
            },
            Ok(p) => p,
        };
        proof {
            assert(pre.times().dom().contains(client_id));
        }
        let rt = self.timeouts.untrack(client_id);
        proof {
            assert(rt is Ok);
            assert(p == player_at(pre.pview(), client_id));
            let pi = player_index(pre.pview(), client_id);
            assert(pre.pview()[pi].memberships_exclusive());
        }
        match p.lobby_id {
            Some(lid) => {
                proof {
                    assert((player_at(pre.pview(), client_id)).lobby_id is Some);
                    assert(has_lobby(pre.lview(), lid) && has_member(
                        lobby_at(pre.lview(), lid).members@,
                        client_id,
                    ));
                }
                let rrm = self.lobbies.remove_member(lid, client_id);
                proof {
                    assert(rrm is Ok);
                }
            },
            None => {},
        }
        match p.game_id {
            Some(gid) => {
                proof {
                    assert((player_at(pre.pview(), client_id)).game_id is Some);
                    assert(has_game(pre.gview(), gid) && has_gplayer(
                        game_at_s(pre.gview(), gid).players@,
                        client_id,
                    ));
                }
                let rg = self.games.remove_participant(gid, client_id);
                proof {
                    assert(rg is Ok);
                }
            },
            None => {},
        }
        proof {
            let post = *self;
            let pi = player_index(pre.pview(), client_id);
            assert(pre.pview()[pi].memberships_exclusive());
            if p.lobby_id is Some {
                let lid = p.lobby_id->0;
                let lk = lobby_index(pre.lview(), lid);
                let base = lobby_at(pre.lview(), lid).members@;
                assert(0 <= lk < pre.lview().len() && pre.lview()[lk].id == lid);
                assert(distinct_member_ids(base)) by {
                    assert(pre.lview()[lk].wf());
                }
                crate::lobby::lemma_remove_member(base, client_id);
                if base.len() == 1 {
                    crate::lobby::lemma_remove_lobby(pre.lview(), lid);
                } else {
                    crate::lobby::lemma_update_lobby(
                        pre.lview(),
                        lk,
                        lobby_at(post.lview(), lid),
                    );
                }
            }
            if p.game_id is Some {
                let gid = p.game_id->0;
                let gk = game_index(pre.gview(), gid);
                let gbase = game_at_s(pre.gview(), gid).players@;
                assert(0 <= gk < pre.gview().len() && pre.gview()[gk].id == gid);
                assert(crate::game::distinct_gplayer_ids(gbase)) by {
                    assert(pre.gview()[gk].wf());
                }
                crate::game::lemma_remove_gplayer(gbase, client_id);
            }
            assert(post.timeouts_match()) by {
                assert forall|id: u32| #[trigger] post.times().dom().contains(id) == has_player(
                    post.pview(),
                    id,
                ) by {
                    assert(pre.times().dom().contains(id) == has_player(pre.pview(), id));
                }
            }
            assert(post.lobby_links()) by {
                assert forall|id: u32|
                    has_player(post.pview(), id) && (#[trigger] player_at(
                        post.pview(),
                        id,
                    )).lobby_id is Some implies {
                    let l = player_at(post.pview(), id).lobby_id->0;
                    &&& has_lobby(post.lview(), l)
                    &&& has_member(lobby_at(post.lview(), l).members@, id)
                } by {
                    assert(id != client_id);
                    assert(player_at(post.pview(), id) == player_at(pre.pview(), id));
                    assert(has_player(pre.pview(), id));
                    let l = player_at(pre.pview(), id).lobby_id->0;
                    assert(has_lobby(pre.lview(), l) && has_member(
                        lobby_at(pre.lview(), l).members@,
                        id,
                    ));
                    if p.lobby_id is Some {
                        let lid = p.lobby_id->0;
                        let base = lobby_at(pre.lview(), lid).members@;
                        if l == lid {
                            if base.len() == 1 {
                                let mi = member_index(base, id);
                                let mc = member_index(base, client_id);
                                assert(base[mi].id == id && base[mc].id == client_id);
                                assert(false);
                            } else {
                                assert(has_member(lobby_at(post.lview(), lid).members@, id));
                            }
                        } else {
                            assert(has_lobby(post.lview(), l) == has_lobby(pre.lview(), l));
                            assert(lobby_at(post.lview(), l) == lobby_at(pre.lview(), l));
                        }
                    } else {
                        assert(post.lobbies == pre.lobbies);
                    }
                }
            }
            assert(post.game_links()) by {
                assert forall|id: u32|
                    has_player(post.pview(), id) && (#[trigger] player_at(
                        post.pview(),
                        id,
                    )).game_id is Some implies {
                    let g = player_at(post.pview(), id).game_id->0;
                    &&& has_game(post.gview(), g)
                    &&& has_gplayer(game_at_s(post.gview(), g).players@, id)
                } by {
                    assert(id != client_id);
                    assert(player_at(post.pview(), id) == player_at(pre.pview(), id));
                    assert(has_player(pre.pview(), id));
                    let g = player_at(pre.pview(), id).game_id->0;
                    assert(has_game(pre.gview(), g) && has_gplayer(
                        game_at_s(pre.gview(), g).players@,
                        id,
                    ));
                    if p.game_id is Some {
                        let gid = p.game_id->0;
                        if g == gid {
                            assert(has_gplayer(game_at_s(post.gview(), gid).players@, id));
                        } else {
                            assert(has_game(post.gview(), g) == has_game(pre.gview(), g));
                            assert(game_at_s(post.gview(), g) == game_at_s(pre.gview(), g));
                        }
                    } else {
                        assert(post.games == pre.games);
                    }
                }
            }
            assert(post.lobby_members_linked()) by {
                assert forall|i: int, j: int|
                    #![trigger post.lobbies.lobbies@[i].members@[j]]
                    0 <= i < post.lview().len() && 0 <= j < post.lview()[i].members@.len() implies {
                    let mid = post.lview()[i].members@[j].id;
                    &&& has_player(post.pview(), mid)
                    &&& player_at(post.pview(), mid).lobby_id == Some(post.lview()[i].id)
                } by {
                    let ll = post.lview()[i];
                    let mid = ll.members@[j].id;
                    if p.lobby_id is Some {
                        let lid = p.lobby_id->0;
                        let lk = lobby_index(pre.lview(), lid);
                        let base = lobby_at(pre.lview(), lid).members@;
                        if base.len() == 1 {
                            let iorig = if i < lk {
                                i
                            } else {
                                i + 1
                            };
                            assert(pre.lview()[iorig] == ll);
                            assert(pre.lview()[iorig].members@[j].id == mid);
                            assert(iorig != lk);
                            assert(ll.id != lid);
                            assert(mid != client_id);
                            assert(player_at(post.pview(), mid) == player_at(pre.pview(), mid));
                        } else {
                            if i == lk {
                                assert(ll == lobby_at(post.lview(), lid)) by {
                                    let k3 = lobby_index(post.lview(), lid);
                                    if k3 != i {
                                        assert(post.lview()[k3].id == lid);
                                    }
                                }
                                let mj = member_index(base, client_id);
                                let jorig = if j < mj {
                                    j
                                } else {
                                    j + 1
                                };
                                assert(base[jorig] == ll.members@[j]);
                                assert(pre.lview()[lk].members@[jorig].id == mid);
                                assert(jorig != mj);
                                assert(mid != client_id) by {
                                    if mid == client_id {
                                        assert(base[jorig].id == base[mj].id);
                                    }
                                }
                                assert(player_at(post.pview(), mid) == player_at(
                                    pre.pview(),
                                    mid,
                                ));
                            } else {
                                assert(ll == pre.lview()[i]);
                                assert(pre.lview()[i].members@[j].id == mid);
                                assert(ll.id != lid);
                                assert(mid != client_id);
                                assert(player_at(post.pview(), mid) == player_at(
                                    pre.pview(),
                                    mid,
                                ));
                            }
                        }
                    } else {
                        assert(post.lobbies == pre.lobbies);
                        assert(pre.lview()[i].members@[j].id == mid);
                        assert(mid != client_id) by {
                            if mid == client_id {
                                assert(player_at(pre.pview(), client_id).lobby_id == Some(
                                    pre.lview()[i].id,
                                ));
                            }
                        }
                        assert(player_at(post.pview(), mid) == player_at(pre.pview(), mid));
                    }
                }
            }
            assert(post.game_members_linked()) by {
                assert forall|i: int, j: int|
                    #![trigger post.games.games@[i].players@[j]]
                    0 <= i < post.gview().len() && 0 <= j < post.gview()[i].players@.len() implies {
                    let mid = post.gview()[i].players@[j].id;
                    &&& has_player(post.pview(), mid)
                    &&& player_at(post.pview(), mid).game_id == Some(post.gview()[i].id)
                } by {
                    let gg = post.gview()[i];
                    let mid = gg.players@[j].id;
                    if p.game_id is Some {
                        let gid = p.game_id->0;
                        let gk = game_index(pre.gview(), gid);
                        let gbase = game_at_s(pre.gview(), gid).players@;
                        if i == gk {
                            assert(gg == game_at_s(post.gview(), gid)) by {
                                let k3 = game_index(post.gview(), gid);
                                if k3 != i {
                                    assert(post.gview()[k3].id == gid);
                                }
                            }
                            let mj = crate::game::gplayer_index(gbase, client_id);
                            let jorig = if j < mj {
                                j
                            } else {
                                j + 1
                            };
                            assert(gbase[jorig] == gg.players@[j]);
                            assert(pre.gview()[gk].players@[jorig].id == mid);
                            assert(jorig != mj);
                            assert(mid != client_id) by {
                                if mid == client_id {
                                    assert(gbase[jorig].id == gbase[mj].id);
                                }
                            }
                            assert(player_at(post.pview(), mid) == player_at(pre.pview(), mid));
                        } else {
                            assert(gg == pre.gview()[i]);
                            assert(pre.gview()[i].players@[j].id == mid);
                            assert(gg.id != gid);
                            assert(mid != client_id);
                            assert(player_at(post.pview(), mid) == player_at(pre.pview(), mid));
                        }
                    } else {
                        assert(post.games == pre.games);
                        assert(pre.gview()[i].players@[j].id == mid);
                        assert(mid != client_id) by {
                            if mid == client_id {
                                assert(player_at(pre.pview(), client_id).game_id == Some(
                                    pre.gview()[i].id,
                                ));
                            }
                        }
                        assert(player_at(post.pview(), mid) == player_at(pre.pview(), mid));
                    }
                }
            }
        }
        Ok(())
    }

    /// Place a tile for `client_id`: the caller must be registered, in a
    /// game, hold the card, have the turn, and aim inside the board. On
    /// success the card is consumed and the turn passes on; the board itself
    /// belongs to the external rules service.
    pub fn set_tile(&mut self, client_id: u32, x: u8, y: u8, card_index: u8) -> (r: Result<
        (),
        ServerError,
    >)
        requires
            old(self).wf(),
        ensures
            final(self).wf(),
            r == set_tile_result(*old(self), client_id, x, y, card_index),
            r is Err ==> *final(self) == *old(self),
            r is Ok ==> set_tile_effect(*old(self), *final(self), client_id),
    {
        let ghost pre = *self;
        let gopt = match self.players.lookup(client_id) {
            None => {
                return Err(ServerError::PlayerNotFound);
            },
            Some(p) => p.game_id,
        };
        let gid = match gopt {
            None => {
                return Err(ServerError::GameNotFound);
            },
            Some(g) => g,
        };
        proof {
            assert((player_at(pre.pview(), client_id)).game_id is Some);
            assert(has_game(pre.gview(), gid) && has_gplayer(
                game_at_s(pre.gview(), gid).players@,
                client_id,
            ));
        }
        let gi = match self.games.index_of(gid) {
            Some(i) => i,
            None => {
                proof {
                    assert(false);
                }
                return Err(ServerError::GameNotFound);
            },
        };
        let pj = match self.games.games[gi].index_of_player(client_id) {
            Some(j) => j,
            None => {
                proof {
                    assert(false);
                }
                return Err(ServerError::PlayerNotFound);
            },
        };
        proof {
            assert(self.games.games@[gi as int].wf());
        }
        if (card_index as usize) >= self.games.games[gi].players[pj].cards {
            return Err(ServerError::InvalidCard);
        }
        let turn_id = self.games.games[gi].get_player_in_this_turn();
        if turn_id != client_id {
            return Err(ServerError::WrongTurn);
        }
        if x >= crate::game::BOARD_BOUND {
            return Err(ServerError::OutOfBounds);
        }
        if y >= crate::game::BOARD_BOUND {
            return Err(ServerError::OutOfBounds);
        }
        let g = &mut self.games.games[gi];
        g.play_at(pj);
        proof {
            let post = *self;
            crate::game::lemma_update_game(pre.gview(), gi as int, post.gview()[gi as int]);
            assert(post.timeouts_match()) by {
                assert forall|id: u32| #[trigger] post.times().dom().contains(id) == has_player(
                    post.pview(),
                    id,
                ) by {
                    assert(pre.times().dom().contains(id) == has_player(pre.pview(), id));
                }
            }
            assert(post.lobby_links()) by {
                assert forall|id: u32|
                    has_player(post.pview(), id) && (#[trigger] player_at(
                        post.pview(),
                        id,
                    )).lobby_id is Some implies {
                    let l = player_at(post.pview(), id).lobby_id->0;
                    &&& has_lobby(post.lview(), l)
                    &&& has_member(lobby_at(post.lview(), l).members@, id)
                } by {
                    assert(player_at(post.pview(), id) == player_at(pre.pview(), id));
                    assert(has_player(pre.pview(), id));
                }
            }
            assert(post.game_links()) by {
                assert forall|id: u32|
                    has_player(post.pview(), id) && (#[trigger] player_at(
                        post.pview(),
                        id,
                    )).game_id is Some implies {
                    let g2 = player_at(post.pview(), id).game_id->0;
                    &&& has_game(post.gview(), g2)
                    &&& has_gplayer(game_at_s(post.gview(), g2).players@, id)
                } by {
                    assert(player_at(post.pview(), id) == player_at(pre.pview(), id));
                    assert(has_player(pre.pview(), id));
                    let g2 = player_at(pre.pview(), id).game_id->0;
                    assert(has_game(pre.gview(), g2) && has_gplayer(
                        game_at_s(pre.gview(), g2).players@,
                        id,
                    ));
                    if g2 == gid {
                        let w = crate::game::gplayer_index(
                            game_at_s(pre.gview(), gid).players@,
                            id,
                        );
                        assert(game_at_s(post.gview(), gid).players@[w].id == id);
                    } else {
                        assert(game_at_s(post.gview(), g2) == game_at_s(pre.gview(), g2));
                    }
                }
            }
            assert(post.lobby_members_linked()) by {
                assert forall|i: int, j: int|
                    #![trigger post.lobbies.lobbies@[i].members@[j]]
                    0 <= i < post.lview().len() && 0 <= j < post.lview()[i].members@.len() implies {
                    let mid = post.lview()[i].members@[j].id;
                    &&& has_player(post.pview(), mid)
                    &&& player_at(post.pview(), mid).lobby_id == Some(post.lview()[i].id)
                } by {
                    assert(pre.lview()[i].members@[j].id == post.lview()[i].members@[j].id);
                }
            }
            assert(post.game_members_linked()) by {
                assert forall|i: int, j: int|
                    #![trigger post.games.games@[i].players@[j]]
                    0 <= i < post.gview().len() && 0 <= j < post.gview()[i].players@.len() implies {
                    let mid = post.gview()[i].players@[j].id;
                    &&& has_player(post.pview(), mid)
                    &&& player_at(post.pview(), mid).game_id == Some(post.gview()[i].id)
                } by {
                    if i == gi as int {
                        assert(post.gview()[i].players@[j].id == pre.gview()[i].players@[j].id);
                    } else {
                        assert(post.gview()[i] == pre.gview()[i]);
                    }
                    assert(pre.gview()[i].players@[j].id == post.gview()[i].players@[j].id);
                }
            }
        }
        Ok(())
    }

    /// One scan step of the background timeout sweep: look at the earliest
    /// liveness entry and, if its heartbeat is older than `threshold` before
    /// `now`, disconnect that identity through the regular disconnect path.
    /// Returns the evicted identity, or `None` when nothing is overdue.
    pub fn sweep_step(&mut self, now: u64, threshold: u64) -> (r: Option<u32>)
        requires
            old(self).wf(),
        ensures
            final(self).wf(),
            r is None ==> *final(self) == *old(self) && (forall|k: u32|
                old(self).times().dom().contains(k) ==> now - threshold <= #[trigger] old(
                    self,
                ).times()[k]),
            r matches Some(id) ==> {
                &&& old(self).times().dom().contains(id)
                &&& has_player(old(self).pview(), id)
                &&& old(self).times()[id] < now - threshold
                &&& forall|k: u32|
                    old(self).times().dom().contains(k) ==> old(self).times()[id]
                        <= #[trigger] old(self).times()[k]
                &&& disconnect_effect(*old(self), *final(self), id)
            },
    {
        let ghost pre = *self;
        match self.timeouts.peek_earliest() {
            None => {
                proof {
                    assert(pre.times() =~= Map::<u32, u64>::empty());
                }
                None
            },
            Some((id, stamp)) => {
                if now >= threshold && stamp < now - threshold {
                    proof {
                        assert(pre.times().dom().contains(id));
                        assert(has_player(pre.pview(), id));
                    }
                    let rd = self.disconnect(id);
                    proof {
                        assert(rd is Ok);
                    }
                    Some(id)
                } else {
                    proof {
                        assert forall|k: u32| pre.times().dom().contains(k) implies now - threshold
                            <= #[trigger] pre.times()[k] by {
                            assert(stamp <= pre.times()[k]);
                        }
                    }
                    None
                }
            },
        }
    }

    /// One full scan of the timeout sweep: evict overdue identities,
    /// earliest first, until none is left. Afterwards every identity still
    /// tracked heartbeated within the threshold — an identity whose
    /// heartbeat is older than the threshold does not survive the scan.
    /// Returns the evicted identities, none of which stays registered.
    pub fn sweep_all(&mut self, now: u64, threshold: u64) -> (evicted: Vec<u32>)
        requires
            old(self).wf(),
        ensures
            final(self).wf(),
            forall|k: u32|
                final(self).times().dom().contains(k) ==> now - threshold
                    <= #[trigger] final(self).times()[k],
            forall|i: int|
                0 <= i < evicted@.len() ==> !has_player(
                    final(self).pview(),
                    #[trigger] evicted@[i],
                ),
    {
        let mut evicted: Vec<u32> = Vec::new();
        loop
            invariant
                self.wf(),
                forall|i: int|
                    0 <= i < evicted@.len() ==> !has_player(self.pview(), #[trigger] evicted@[i]),
            ensures
                self.wf(),
                forall|k: u32|
                    self.times().dom().contains(k) ==> now - threshold
                        <= #[trigger] self.times()[k],
                forall|i: int|
                    0 <= i < evicted@.len() ==> !has_player(self.pview(), #[trigger] evicted@[i]),
            decreases self.times().dom().len(),
        {
            let ghost pre = *self;
            match self.sweep_step(now, threshold) {
                None => {
                    break ;
                },
                Some(id) => {
                    evicted.push(id);
                    proof {
                        assert forall|i: int| 0 <= i < evicted@.len() implies !has_player(
                            self.pview(),
                            #[trigger] evicted@[i],
                        ) by {
                            if i < evicted@.len() - 1 {
                                assert(!has_player(pre.pview(), evicted@[i]));
                                assert(evicted@[i] != id);
                            }
                        }
                        crate::timeout::lemma_times_finite(pre.timeouts);
                        assert(self.times().dom() =~= pre.times().dom().remove(id));
                        assert(self.times().dom().len() < pre.times().dom().len());
                    }
                },
            }
        }
        evicted
    }

    /// Route one decoded request to its handler and always produce a typed
    /// response: a recovered handler error becomes a `success: false`
    /// response rather than tearing the session down.
    pub fn handle_request(&mut self, client_id: u32, request: Request, now: u64) -> (r: Response)
        requires
            old(self).wf(),
            request is CreateLobby ==> old(self).lobbies.next_id < u32::MAX,
        ensures
            final(self).wf(),
            request matches Request::Connect(req) ==> (r matches Response::Connect(cr) && cr.success
                == !has_player(old(self).pview(), client_id) && (cr.success ==> connect_effect(
                *old(self),
                *final(self),
                client_id,
                req.name,
                now,
            )) && (!cr.success ==> *final(self) == *old(self))),
            request is Disconnect ==> (r matches Response::Disconnect(dr) && dr.success
                == has_player(old(self).pview(), client_id) && (dr.success ==> disconnect_effect(
                *old(self),
                *final(self),
                client_id,
            )) && (!dr.success ==> *final(self) == *old(self))),
            request is Heartbeat ==> (r matches Response::Heartbeat(hr) && hr.success == has_player(
                old(self).pview(),
                client_id,
            ) && (hr.success ==> heartbeat_effect(*old(self), *final(self), client_id, now)) && (
            !hr.success ==> *final(self) == *old(self))),
            request is CreateLobby ==> (r matches Response::CreateLobby(cr) && cr.success == (
            has_player(old(self).pview(), client_id) && free_player(
                old(self).pview(),
                client_id,
            )) && (cr.success ==> create_lobby_effect(*old(self), *final(self), client_id) && (
            cr.lobby matches Some(info) && info.id == old(self).lobbies.next_id && info.players@
                == seq![client_id])) && (!cr.success ==> cr.lobby is None && *final(self) == *old(
                self,
            ))),
            request matches Request::JoinLobby(req) ==> (r matches Response::JoinLobby(jr)
                && jr.success == (has_lobby(old(self).lview(), req.lobby_id) && has_player(
                old(self).pview(),
                client_id,
            ) && free_player(old(self).pview(), client_id) && lobby_at(
                old(self).lview(),
                req.lobby_id,
            ).members@.len() < lobby_at(old(self).lview(), req.lobby_id).capacity) && (jr.success
                ==> join_lobby_effect(*old(self), *final(self), client_id, req.lobby_id) && (
            jr.lobby matches Some(info) && info.id == req.lobby_id && info.players@ == lobby_at(
                final(self).lview(),
                req.lobby_id,
            ).member_ids())) && (!jr.success ==> jr.lobby is None && *final(self) == *old(self))),
            request is QuitLobby ==> (r matches Response::QuitLobby(qr) && qr.success == (
            has_player(old(self).pview(), client_id) && player_at(
                old(self).pview(),
                client_id,
            ).lobby_id is Some) && (qr.success ==> quit_lobby_effect(
                *old(self),
                *final(self),
                client_id,
            )) && (!qr.success ==> *final(self) == *old(self))),
            request matches Request::SetTile(req) ==> (r matches Response::SetTile(sr) && sr.success
                == (set_tile_result(*old(self), client_id, req.x, req.y, req.card_index) is Ok) && (
            sr.success ==> set_tile_effect(*old(self), *final(self), client_id)) && (!sr.success
                ==> *final(self) == *old(self))),
    {
        match request {
            Request::Connect(req) => {
                match self.connect(client_id, req.name, now) {
                    Ok(()) => Response::Connect(ConnectResponse { success: true }),
                    Err(_) => Response::Connect(ConnectResponse { success: false }),
                }
            },
            Request::Disconnect => {
                match self.disconnect(client_id) {
                    Ok(()) => Response::Disconnect(DisconnectResponse { success: true }),
                    Err(_) => Response::Disconnect(DisconnectResponse { success: false }),
                }
            },
            Request::Heartbeat => {
                match self.heartbeat(client_id, now) {
                    Ok(()) => Response::Heartbeat(HeartbeatResponse { success: true }),
                    Err(_) => Response::Heartbeat(HeartbeatResponse { success: false }),
                }
            },
            Request::CreateLobby => {
                match self.create_lobby(client_id) {
                    Ok(info) => Response::CreateLobby(
                        CreateResponse { success: true, lobby: Some(info) },
                    ),
                    Err(_) => Response::CreateLobby(CreateResponse { success: false, lobby: None }),
                }
            },
            Request::JoinLobby(req) => {
                match self.join_lobby(client_id, req.lobby_id) {
                    Ok(info) => Response::JoinLobby(
                        JoinResponse { success: true, lobby: Some(info) },
                    ),
                    Err(_) => Response::JoinLobby(JoinResponse { success: false, lobby: None }),
                }
            },
            Request::QuitLobby => {
                match self.quit_lobby(client_id) {
                    Ok(()) => Response::QuitLobby(QuitResponse { success: true }),
                    Err(_) => Response::QuitLobby(QuitResponse { success: false }),
                }
            },
            Request::SetTile(req) => {
                match self.set_tile(client_id, req.x, req.y, req.card_index) {
                    Ok(()) => Response::SetTile(SetTileResponse { success: true }),
                    Err(_) => Response::SetTile(SetTileResponse { success: false }),
                }
            },
        }
    }

    /// Turn the lobby `lobby_id` into a game: the caller must be a
    /// registered member, the lobby must have enough members, and every
    /// member must be ready. The external rules service then takes over
    /// board and turn logic; this core records the membership transfer.
    /// Returns the fresh game identity.
    pub fn start_game(&mut self, client_id: u32, lobby_id: u32) -> (r: Result<u32, ServerError>)
        requires
            old(self).wf(),
            old(self).games.next_id < u32::MAX,
        ensures
            final(self).wf(),
            !has_player(old(self).pview(), client_id) ==> r == Err::<u32, ServerError>(
                ServerError::PlayerNotFound,
            ) && *final(self) == *old(self),
            has_player(old(self).pview(), client_id) && !has_lobby(old(self).lview(), lobby_id)
                ==> r == Err::<u32, ServerError>(ServerError::LobbyNotFound) && *final(self)
                == *old(self),
            has_player(old(self).pview(), client_id) && has_lobby(old(self).lview(), lobby_id)
                && !has_member(lobby_at(old(self).lview(), lobby_id).members@, client_id) ==> r
                == Err::<u32, ServerError>(ServerError::NotMember) && *final(self) == *old(self),
            has_player(old(self).pview(), client_id) && has_lobby(old(self).lview(), lobby_id)
                && has_member(lobby_at(old(self).lview(), lobby_id).members@, client_id)
                && lobby_at(old(self).lview(), lobby_id).members@.len() < MIN_GAME_PLAYERS ==> r
                == Err::<u32, ServerError>(ServerError::InsufficientPlayers) && *final(self)
                == *old(self),
            has_player(old(self).pview(), client_id) && has_lobby(old(self).lview(), lobby_id)
                && has_member(lobby_at(old(self).lview(), lobby_id).members@, client_id)
                && lobby_at(old(self).lview(), lobby_id).members@.len() >= MIN_GAME_PLAYERS
                && !lobby_at(old(self).lview(), lobby_id).all_ready() ==> r == Err::<
                u32,
                ServerError,
            >(ServerError::NotAllReady) && *final(self) == *old(self),
            has_player(old(self).pview(), client_id) && has_lobby(old(self).lview(), lobby_id)
                && has_member(lobby_at(old(self).lview(), lobby_id).members@, client_id)
                && lobby_at(old(self).lview(), lobby_id).members@.len() >= MIN_GAME_PLAYERS
                && lobby_at(old(self).lview(), lobby_id).all_ready() ==> r == Ok::<
                u32,
                ServerError,
            >(old(self).games.next_id) && start_game_effect(*old(self), *final(self), lobby_id),
    {
        let ghost pre = *self;
        if self.players.index_of(client_id).is_none() {
            return Err(ServerError::PlayerNotFound);
        }
        let li = match self.lobbies.index_of(lobby_id) {
            Some(i) => i,
            None => {
                return Err(ServerError::LobbyNotFound);
            },
        };
        if self.lobbies.lobbies[li].index_of_member(client_id).is_none() {
            return Err(ServerError::NotMember);
        }
        let n = self.lobbies.lobbies[li].members.len();
        if n < MIN_GAME_PLAYERS {
            return Err(ServerError::InsufficientPlayers);
        }
        proof {
            assert(li as int == lobby_index(pre.lview(), lobby_id)) by {
                let k = lobby_index(pre.lview(), lobby_id);
                if k != li as int {
                    assert(pre.lview()[k].id == lobby_id);
                }
            }
        }
        let mut i: usize = 0;
        while i < n
            invariant
                pre.wf(),
                *self == pre,
                has_player(pre.pview(), client_id),
                has_lobby(pre.lview(), lobby_id),
                has_member(lobby_at(pre.lview(), lobby_id).members@, client_id),
                0 <= li < pre.lview().len(),
                li as int == lobby_index(pre.lview(), lobby_id),
                pre.lview()[li as int].id == lobby_id,
                n == lobby_at(pre.lview(), lobby_id).members@.len(),
                n >= MIN_GAME_PLAYERS,
                0 <= i <= n,
                forall|j: int| 0 <= j < i ==> pre.lview()[li as int].members@[j].ready,
            decreases n - i,
        {
            if !self.lobbies.lobbies[li].members[i].ready {
                proof {
                    assert(!lobby_at(pre.lview(), lobby_id).all_ready());
                }
                return Err(ServerError::NotAllReady);
            }
            i += 1;
        }
        let ghost base = lobby_at(pre.lview(), lobby_id).members@;
        let ghost p0 = pre.pview();
        proof {
            assert(lobby_at(pre.lview(), lobby_id).all_ready());
        }
        let member_ids = self.lobbies.lobbies[li].member_id_vec();
        proof {
            assert(member_ids@.len() == base.len());
            assert forall|j: int| 0 <= j < base.len() implies member_ids@[j] == base[j].id by {}
            assert(pre.lview()[li as int].wf());
            assert forall|a: int, b: int| 0 <= a < b < base.len() implies member_ids@[a]
                != member_ids@[b] by {
                assert(base[a].id != base[b].id);
            }
        }
        let gid = self.games.create_game(&member_ids);
        let ghost s1 = *self;
        let destroyed = self.lobbies.destroy(lobby_id);
        proof {
            assert(destroyed);
            crate::lobby::lemma_remove_lobby(pre.lview(), lobby_id);
        }
        let ghost s2 = *self;
        let mut k: usize = 0;
        while k < member_ids.len()
            invariant
                0 <= k <= member_ids@.len(),
                member_ids@.len() == base.len(),
                forall|j: int| 0 <= j < base.len() ==> member_ids@[j] == base[j].id,
                forall|a: int, b: int|
                    0 <= a < b < base.len() ==> member_ids@[a] != member_ids@[b],
                forall|j: int| 0 <= j < base.len() ==> has_player(p0, #[trigger] member_ids@[j]),
                self.players.wf(),
                self.lobbies == s2.lobbies,
                self.games == s2.games,
                self.timeouts == s2.timeouts,
                self.lobby_capacity == s2.lobby_capacity,
                forall|id2: u32| #[trigger]
                    has_player(self.players.players@, id2) == has_player(p0, id2),
                forall|j: int|
                    0 <= j < k ==> #[trigger] player_at(self.players.players@, member_ids@[j]) == (
                    Player {
                        lobby_id: None,
                        game_id: Some(gid),
                        ..player_at(p0, member_ids@[j])
                    }),
                forall|id2: u32|
                    (forall|j: int| 0 <= j < k ==> member_ids@[j] != id2) && has_player(p0, id2)
                        ==> #[trigger] player_at(self.players.players@, id2) == player_at(p0, id2),
            decreases member_ids@.len() - k,
        {
            let mid = member_ids[k];
            let ghost cur = self.players.players@;
            proof {
                assert(has_player(p0, mid));
                assert(has_player(cur, mid));
                assert forall|j: int| 0 <= j < k implies member_ids@[j] != mid by {}
                assert(player_at(cur, mid) == player_at(p0, mid));
            }
            let okb = self.players.set_memberships(mid, None, Some(gid));
            proof {
                assert(okb);
                let idx = player_index(cur, mid);
                assert(0 <= idx < cur.len() && cur[idx].id == mid);
                crate::player::lemma_update_player(
                    cur,
                    idx,
                    (Player { lobby_id: None, game_id: Some(gid), ..player_at(cur, mid) }),
                );
            }
            k += 1;
        }
        proof {
            let post = *self;
            // where everything now stands
            assert(post.lview() == pre.lview().remove(li as int));
            assert(post.gview() == pre.gview().push(game_at_s(s1.gview(), gid)));
            assert(has_game(post.gview(), gid) && game_at_s(post.gview(), gid) == game_at_s(
                s1.gview(),
                gid,
            )) by {
                let gk = game_index(post.gview(), gid);
                assert(post.gview()[pre.gview().len() as int].id == gid);
                if gk != pre.gview().len() {
                    assert(post.gview()[gk].id == gid);
                    assert(pre.gview()[gk].id == gid);
                    assert(!has_game(pre.gview(), gid));
                }
            }
            assert forall|id2: u32| id2 != gid implies #[trigger] has_game(post.gview(), id2)
                == has_game(pre.gview(), id2) by {
                assert(has_game(s1.gview(), id2) == has_game(pre.gview(), id2));
            }
            assert forall|id2: u32| id2 != gid && has_game(pre.gview(), id2) implies #[trigger]
                game_at_s(post.gview(), id2) == game_at_s(pre.gview(), id2) by {
                assert(game_at_s(s1.gview(), id2) == game_at_s(pre.gview(), id2));
            }
            assert(post.timeouts_match()) by {
                assert forall|id: u32| #[trigger] post.times().dom().contains(id) == has_player(
                    post.pview(),
                    id,
                ) by {
                    assert(pre.times().dom().contains(id) == has_player(pre.pview(), id));
                    assert(has_player(post.pview(), id) == has_player(p0, id));
                }
            }
            assert forall|id2: u32| has_member(base, id2) implies #[trigger] player_at(
                post.pview(),
                id2,
            ) == (Player { lobby_id: None, game_id: Some(gid), ..player_at(p0, id2) }) by {
                let w = member_index(base, id2);
                assert(base[w].id == id2);
                assert(member_ids@[w] == id2);
                assert(player_at(post.pview(), member_ids@[w]) == (Player {
                    lobby_id: None,
                    game_id: Some(gid),
                    ..player_at(p0, member_ids@[w])
                }));
            }
            assert forall|id2: u32| !has_member(base, id2) && has_player(p0, id2) implies
                #[trigger] player_at(post.pview(), id2) == player_at(p0, id2) by {
                assert forall|j: int| 0 <= j < base.len() implies member_ids@[j] != id2 by {
                    if member_ids@[j] == id2 {
                        assert(base[j].id == id2);
                    }
                }
            }
            assert(post.lobby_links()) by {
                assert forall|id: u32|
                    has_player(post.pview(), id) && (#[trigger] player_at(
                        post.pview(),
                        id,
                    )).lobby_id is Some implies {
                    let l = player_at(post.pview(), id).lobby_id->0;
                    &&& has_lobby(post.lview(), l)
                    &&& has_member(lobby_at(post.lview(), l).members@, id)
                } by {
                    assert(!has_member(base, id));
                    assert(has_player(p0, id));
                    assert(player_at(post.pview(), id) == player_at(p0, id));
                    let l = player_at(p0, id).lobby_id->0;
                    assert(has_lobby(pre.lview(), l) && has_member(
                        lobby_at(pre.lview(), l).members@,
                        id,
                    ));
                    assert(l != lobby_id);
                    assert(has_lobby(post.lview(), l) && lobby_at(post.lview(), l) == lobby_at(
                        pre.lview(),
                        l,
                    ));
                }
            }
            assert(post.game_links()) by {
                assert forall|id: u32|
                    has_player(post.pview(), id) && (#[trigger] player_at(
                        post.pview(),
                        id,
                    )).game_id is Some implies {
                    let g = player_at(post.pview(), id).game_id->0;
                    &&& has_game(post.gview(), g)
                    &&& has_gplayer(game_at_s(post.gview(), g).players@, id)
                } by {
                    if has_member(base, id) {
                        let w = member_index(base, id);
                        assert(game_at_s(s1.gview(), gid).players@[w].id == id);
                        assert(has_gplayer(game_at_s(post.gview(), gid).players@, id));
                    } else {
                        assert(has_player(p0, id));
                        assert(player_at(post.pview(), id) == player_at(p0, id));
                        let g = player_at(p0, id).game_id->0;
                        assert(has_game(pre.gview(), g) && has_gplayer(
                            game_at_s(pre.gview(), g).players@,
                            id,
                        ));
                        assert(g != gid) by {
                            if g == gid {
                                assert(!has_game(pre.gview(), gid));
                            }
                        }
                    }
                }
            }
            assert(post.lobby_members_linked()) by {
                assert forall|i2: int, j: int|
                    #![trigger post.lobbies.lobbies@[i2].members@[j]]
                    0 <= i2 < post.lview().len() && 0 <= j < post.lview()[i2].members@.len()
                    implies {
                    let mid = post.lview()[i2].members@[j].id;
                    &&& has_player(post.pview(), mid)
                    &&& player_at(post.pview(), mid).lobby_id == Some(post.lview()[i2].id)
                } by {
                    let iorig = if i2 < li as int {
                        i2
                    } else {
                        i2 + 1
                    };
                    let ll = post.lview()[i2];
                    assert(pre.lview()[iorig] == ll);
                    let mid = ll.members@[j].id;
                    assert(pre.lview()[iorig].members@[j].id == mid);
                    assert(has_player(p0, mid) && player_at(p0, mid).lobby_id == Some(ll.id));
                    assert(iorig != li as int);
                    assert(ll.id != lobby_id);
                    assert(!has_member(base, mid)) by {
                        if has_member(base, mid) {
                            let w = member_index(base, mid);
                            assert(pre.lview()[li as int].members@[w].id == mid);
                            assert(player_at(p0, mid).lobby_id == Some(lobby_id));
                        }
                    }
                    assert(player_at(post.pview(), mid) == player_at(p0, mid));
                }
            }
            assert(post.game_members_linked()) by {
                assert forall|i2: int, j: int|
                    #![trigger post.games.games@[i2].players@[j]]
                    0 <= i2 < post.gview().len() && 0 <= j < post.gview()[i2].players@.len()
                    implies {
                    let mid = post.gview()[i2].players@[j].id;
                    &&& has_player(post.pview(), mid)
                    &&& player_at(post.pview(), mid).game_id == Some(post.gview()[i2].id)
                } by {
                    if i2 == pre.gview().len() {
                        let mid = post.gview()[i2].players@[j].id;
                        assert(post.gview()[i2] == game_at_s(s1.gview(), gid));
                        assert(game_at_s(s1.gview(), gid).players@[j] == (crate::game::GamePlayer {
                            id: member_ids@[j],
                            cards: crate::game::STARTING_HAND,
                        }));
                        assert(mid == base[j].id);
                        assert(has_member(base, mid));
                        assert(player_at(post.pview(), mid).game_id == Some(gid));
                        assert(has_player(p0, mid));
                    } else {
                        let mid = pre.gview()[i2].players@[j].id;
                        assert(post.gview()[i2] == pre.gview()[i2]);
                        assert(has_player(p0, mid) && player_at(p0, mid).game_id == Some(
                            pre.gview()[i2].id,
                        ));
                        assert(!has_member(base, mid)) by {
                            if has_member(base, mid) {
                                let w = member_index(base, mid);
                                assert(pre.lview()[li as int].members@[w].id == mid);
                                assert(player_at(p0, mid).lobby_id == Some(lobby_id));
                                let pidx = player_index(p0, mid);
                                assert(p0[pidx].memberships_exclusive());
                            }
                        }
                        assert(player_at(post.pview(), mid) == player_at(p0, mid));
                    }
                }
            }
        }
        Ok(gid)
    }
}

/// What a successful lobby-to-game transition does: a fresh game whose
/// participants are the lobby's members in join order, each dealt a starting
/// hand and the turn marker on the first; every member's record switches
/// from the lobby membership to the game membership; the lobby retires.
pub open spec fn start_game_effect(pre: Server, post: Server, lobby_id: u32) -> bool {
    let gid = pre.games.next_id;
    let base = lobby_at(pre.lview(), lobby_id).members@;
    &&& has_game(post.gview(), gid)
    &&& game_at_s(post.gview(), gid).id == gid
    &&& game_at_s(post.gview(), gid).turn_index == 0
    &&& game_at_s(post.gview(), gid).players@.len() == base.len()
    &&& forall|j: int|
        0 <= j < base.len() ==> #[trigger] game_at_s(post.gview(), gid).players@[j] == (
        crate::game::GamePlayer { id: base[j].id, cards: crate::game::STARTING_HAND })
    &&& forall|id2: u32|
        id2 != gid ==> #[trigger] has_game(post.gview(), id2) == has_game(pre.gview(), id2)
    &&& forall|id2: u32|
        id2 != gid && has_game(pre.gview(), id2) ==> #[trigger] game_at_s(post.gview(), id2)
            == game_at_s(pre.gview(), id2)
    &&& !has_lobby(post.lview(), lobby_id)
    &&& forall|id2: u32|
        id2 != lobby_id ==> #[trigger] has_lobby(post.lview(), id2) == has_lobby(
            pre.lview(),
            id2,
        )
    &&& forall|id2: u32|
        id2 != lobby_id && has_lobby(pre.lview(), id2) ==> #[trigger] lobby_at(
            post.lview(),
            id2,
        ) == lobby_at(pre.lview(), id2)
    &&& forall|id2: u32| #[trigger] has_player(post.pview(), id2) == has_player(pre.pview(), id2)
    &&& forall|id2: u32|
        has_member(base, id2) ==> #[trigger] player_at(post.pview(), id2) == (Player {
            lobby_id: None,
            game_id: Some(gid),
            ..player_at(pre.pview(), id2)
        })
    &&& forall|id2: u32|
        !has_member(base, id2) && has_player(pre.pview(), id2) ==> #[trigger] player_at(
            post.pview(),
            id2,
        ) == player_at(pre.pview(), id2)
    &&& post.times() == pre.times()
    &&& post.games.next_id == pre.games.next_id + 1
    &&& post.lobbies.next_id == pre.lobbies.next_id
    &&& post.lobby_capacity == pre.lobby_capacity
}

/// The game with identity `id` in `s`; re-exported shorthand so server specs
/// read uniformly.
pub open spec fn game_at_s(s: Seq<crate::game::Game>, id: u32) -> crate::game::Game {
    crate::game::game_at(s, id)
}

/// Which result a place-tile request gets, by the handler's check order:
/// unknown player, then no game membership, then an out-of-hand card index,
/// then a turn that is not the caller's, then board bounds.
pub open spec fn set_tile_result(pre: Server, id: u32, x: u8, y: u8, card_index: u8) -> Result<
    (),
    ServerError,
> {
    if !has_player(pre.pview(), id) {
        Err(ServerError::PlayerNotFound)
    } else if player_at(pre.pview(), id).game_id is None {
        Err(ServerError::GameNotFound)
    } else {
        let g = game_at_s(pre.gview(), player_at(pre.pview(), id).game_id->0);
        if card_index as int >= crate::game::gplayer_at(g.players@, id).cards {
            Err(ServerError::InvalidCard)
        } else if g.players@[g.turn_index as int].id != id {
            Err(ServerError::WrongTurn)
        } else if x >= crate::game::BOARD_BOUND {
            Err(ServerError::OutOfBounds)
        } else if y >= crate::game::BOARD_BOUND {
            Err(ServerError::OutOfBounds)
        } else {
            Ok(())
        }
    }
}

/// What a successful tile placement does: one card leaves the caller's hand
/// and the turn passes to the next participant; registries and liveness
/// entries are untouched. The tile itself lands on the rules service's
/// board, outside this core.
pub open spec fn set_tile_effect(pre: Server, post: Server, id: u32) -> bool {
    let gid = player_at(pre.pview(), id).game_id->0;
    let g0 = game_at_s(pre.gview(), gid);
    let j = crate::game::gplayer_index(g0.players@, id);
    &&& post.players == pre.players
    &&& post.lobbies == pre.lobbies
    &&& post.timeouts == pre.timeouts
    &&& post.lobby_capacity == pre.lobby_capacity
    &&& post.games.next_id == pre.games.next_id
    &&& has_game(post.gview(), gid)
    &&& game_at_s(post.gview(), gid).players@ == g0.players@.update(
        j,
        (crate::game::GamePlayer {
            id,
            cards: (crate::game::gplayer_at(g0.players@, id).cards - 1) as usize,
        }),
    )
    &&& game_at_s(post.gview(), gid).turn_index as int == (g0.turn_index + 1) % (
    g0.players@.len() as int)
    &&& forall|id2: u32|
        id2 != gid ==> #[trigger] has_game(post.gview(), id2) == has_game(pre.gview(), id2)
    &&& forall|id2: u32|
        id2 != gid && has_game(pre.gview(), id2) ==> #[trigger] game_at_s(post.gview(), id2)
            == game_at_s(pre.gview(), id2)
}

/// A registered player that belongs to no lobby and no game, and so is free
/// to create or join a lobby.
pub open spec fn free_player(s: Seq<Player>, id: u32) -> bool {
    &&& player_at(s, id).lobby_id is None
    &&& player_at(s, id).game_id is None
}

/// What a successful connect does: a fresh player record and a fresh
/// liveness entry stamped `now`; nothing else moves.
pub open spec fn connect_effect(pre: Server, post: Server, id: u32, name: String, now: u64) -> bool {
    &&& post.pview() == pre.pview().push((Player { id, name, lobby_id: None, game_id: None }))
    &&& post.times() == pre.times().insert(id, now)
    &&& post.lobbies == pre.lobbies
    &&& post.games == pre.games
    &&& post.lobby_capacity == pre.lobby_capacity
}

/// What a successful heartbeat does: the liveness entry is re-stamped to
/// `now`; the registries are untouched.
pub open spec fn heartbeat_effect(pre: Server, post: Server, id: u32, now: u64) -> bool {
    &&& post.times() == pre.times().insert(id, now)
    &&& post.players == pre.players
    &&& post.lobbies == pre.lobbies
    &&& post.games == pre.games
    &&& post.lobby_capacity == pre.lobby_capacity
}

/// What a successful create-lobby does: a lobby under the next fresh
/// identity whose sole, not-ready member is the caller, and the caller's
/// record naming it.
pub open spec fn create_lobby_effect(pre: Server, post: Server, id: u32) -> bool {
    let nid = pre.lobbies.next_id;
    &&& has_lobby(post.lview(), nid)
    &&& lobby_at(post.lview(), nid).id == nid
    &&& lobby_at(post.lview(), nid).capacity == pre.lobby_capacity
    &&& lobby_at(post.lview(), nid).members@ == Seq::<LobbyMember>::empty().push(
        (LobbyMember { id, ready: false }),
    )
    &&& forall|id2: u32|
        id2 != nid ==> #[trigger] has_lobby(post.lview(), id2) == has_lobby(pre.lview(), id2)
    &&& forall|id2: u32|
        id2 != nid && has_lobby(pre.lview(), id2) ==> #[trigger] lobby_at(post.lview(), id2)
            == lobby_at(pre.lview(), id2)
    &&& post.pview() == pre.pview().update(
        player_index(pre.pview(), id),
        (Player { lobby_id: Some(nid), ..player_at(pre.pview(), id) }),
    )
    &&& post.times() == pre.times()
    &&& post.games == pre.games
    &&& post.lobbies.next_id == pre.lobbies.next_id + 1
    &&& post.lobby_capacity == pre.lobby_capacity
}

/// What a successful join-lobby does: the caller becomes the lobby's last,
/// not-ready member and its record names the lobby.
pub open spec fn join_lobby_effect(pre: Server, post: Server, id: u32, lobby_id: u32) -> bool {
    &&& has_lobby(post.lview(), lobby_id)
    &&& lobby_at(post.lview(), lobby_id).id == lobby_id
    &&& lobby_at(post.lview(), lobby_id).capacity == lobby_at(pre.lview(), lobby_id).capacity
    &&& lobby_at(post.lview(), lobby_id).members@ == lobby_at(
        pre.lview(),
        lobby_id,
    ).members@.push((LobbyMember { id, ready: false }))
    &&& forall|id2: u32|
        #[trigger] has_lobby(post.lview(), id2) == has_lobby(pre.lview(), id2)
    &&& forall|id2: u32|
        id2 != lobby_id && has_lobby(pre.lview(), id2) ==> #[trigger] lobby_at(post.lview(), id2)
            == lobby_at(pre.lview(), id2)
    &&& post.pview() == pre.pview().update(
        player_index(pre.pview(), id),
        (Player { lobby_id: Some(lobby_id), ..player_at(pre.pview(), id) }),
    )
    &&& post.times() == pre.times()
    &&& post.games == pre.games
    &&& post.lobbies.next_id == pre.lobbies.next_id
    &&& post.lobby_capacity == pre.lobby_capacity
}

/// What a successful quit-lobby does: the caller's membership is cleared and
/// its lobby loses the member, vanishing if that member was the last one.
pub open spec fn quit_lobby_effect(pre: Server, post: Server, id: u32) -> bool {
    let l = player_at(pre.pview(), id).lobby_id->0;
    let base = lobby_at(pre.lview(), l).members@;
    &&& post.pview() == pre.pview().update(
        player_index(pre.pview(), id),
        (Player { lobby_id: None, ..player_at(pre.pview(), id) }),
    )
    &&& (base.len() == 1 ==> !has_lobby(post.lview(), l))
    &&& (base.len() > 1 ==> has_lobby(post.lview(), l) && lobby_at(post.lview(), l).members@
        == base.remove(member_index(base, id)) && lobby_at(post.lview(), l).capacity == lobby_at(
        pre.lview(),
        l,
    ).capacity)
    &&& forall|id2: u32|
        id2 != l ==> #[trigger] has_lobby(post.lview(), id2) == has_lobby(pre.lview(), id2)
    &&& forall|id2: u32|
        id2 != l && has_lobby(pre.lview(), id2) ==> #[trigger] lobby_at(post.lview(), id2)
            == lobby_at(pre.lview(), id2)
    &&& post.times() == pre.times()
    &&& post.games == pre.games
    &&& post.lobbies.next_id == pre.lobbies.next_id
    &&& post.lobby_capacity == pre.lobby_capacity
}

/// What disconnecting the registered identity `id` does to the server state,
/// whether the disconnect was requested by the client or synthesized by the
/// timeout sweep: the player record and its timeout entry go away; a lobby
/// membership is removed, destroying a lobby left empty; a game membership
/// is removed, with the game going on among the remaining participants.
pub open spec fn disconnect_effect(pre: Server, post: Server, id: u32) -> bool {
    let p = player_at(pre.pview(), id);
    &&& post.pview() == pre.pview().remove(player_index(pre.pview(), id))
    &&& !has_player(post.pview(), id)
    &&& forall|id2: u32|
        id2 != id ==> #[trigger] has_player(post.pview(), id2) == has_player(pre.pview(), id2)
    &&& forall|id2: u32|
        id2 != id && has_player(pre.pview(), id2) ==> #[trigger] player_at(post.pview(), id2)
            == player_at(pre.pview(), id2)
    &&& post.times() == pre.times().remove(id)
    &&& post.lobby_capacity == pre.lobby_capacity
    &&& post.lobbies.next_id == pre.lobbies.next_id
    &&& post.games.next_id == pre.games.next_id
    &&& (p.lobby_id is None ==> post.lobbies == pre.lobbies)
    &&& (p.lobby_id matches Some(l) ==> {
        let base = lobby_at(pre.lview(), l).members@;
        &&& (base.len() == 1 ==> !has_lobby(post.lview(), l))
        &&& (base.len() > 1 ==> has_lobby(post.lview(), l) && lobby_at(post.lview(), l).members@
            == base.remove(member_index(base, id)) && lobby_at(post.lview(), l).capacity
            == lobby_at(pre.lview(), l).capacity)
        &&& forall|id2: u32|
            id2 != l ==> #[trigger] has_lobby(post.lview(), id2) == has_lobby(pre.lview(), id2)
        &&& forall|id2: u32|
            id2 != l && has_lobby(pre.lview(), id2) ==> #[trigger] lobby_at(post.lview(), id2)
                == lobby_at(pre.lview(), id2)
    })
    &&& (p.game_id is None ==> post.games == pre.games)
    &&& (p.game_id matches Some(g) ==> {
        let gp = game_at_s(pre.gview(), g).players@;
        let k = crate::game::gplayer_index(gp, id);
        &&& has_game(post.gview(), g)
        &&& game_at_s(post.gview(), g).players@ == gp.remove(k)
        &&& game_at_s(post.gview(), g).turn_index as int == crate::game::turn_after_removal(
            game_at_s(pre.gview(), g).turn_index as int,
            k,
            gp.len() - 1,
        )
        &&& forall|id2: u32|
            id2 != g ==> #[trigger] has_game(post.gview(), id2) == has_game(pre.gview(), id2)
        &&& forall|id2: u32|
            id2 != g && has_game(pre.gview(), id2) ==> #[trigger] game_at_s(post.gview(), id2)
                == game_at_s(pre.gview(), id2)
    })
}

/// Frame argument shared by the quit-lobby and disconnect handlers: when the
/// player's record stops naming the lobby `lobby_id` — here modelled as the
/// record update, with removal handled by the caller on top — and the lobby
/// loses that member (or, as its last member left, leaves the registry with
/// it), the cross-registry invariant holds again.
proof fn lemma_wf_after_leave(
    pre: Server,
    post: Server,
    client_id: u32,
    lobby_id: u32,
    destroyed: bool,
)
    requires
        pre.wf(),
        has_player(pre.pview(), client_id),
        player_at(pre.pview(), client_id).lobby_id == Some(lobby_id),
        post.players.wf(),
        post.pview() == pre.pview().update(
            player_index(pre.pview(), client_id),
            (Player { lobby_id: None, ..player_at(pre.pview(), client_id) }),
        ),
        post.lobbies.wf(),
        destroyed ==> lobby_at(pre.lview(), lobby_id).members@.len() == 1 && post.lview()
            == pre.lview().remove(lobby_index(pre.lview(), lobby_id)),
        !destroyed ==> {
            &&& has_lobby(post.lview(), lobby_id)
            &&& lobby_at(post.lview(), lobby_id).id == lobby_id
            &&& lobby_at(post.lview(), lobby_id).capacity == lobby_at(
                pre.lview(),
                lobby_id,
            ).capacity
            &&& lobby_at(post.lview(), lobby_id).members@ == lobby_at(
                pre.lview(),
                lobby_id,
            ).members@.remove(
                member_index(lobby_at(pre.lview(), lobby_id).members@, client_id),
            )
            &&& post.lview() == pre.lview().update(
                lobby_index(pre.lview(), lobby_id),
                lobby_at(post.lview(), lobby_id),
            )
        },
        post.games == pre.games,
        post.timeouts == pre.timeouts,
        post.lobby_capacity == pre.lobby_capacity,
    ensures
        post.wf(),
{
    let pi = player_index(pre.pview(), client_id);
    let p0 = player_at(pre.pview(), client_id);
    let p1 = Player { lobby_id: None, ..p0 };
    assert(0 <= pi < pre.pview().len() && pre.pview()[pi].id == client_id);
    crate::player::lemma_update_player(pre.pview(), pi, p1);
    let k = lobby_index(pre.lview(), lobby_id);
    assert(has_lobby(pre.lview(), lobby_id) && has_member(
        lobby_at(pre.lview(), lobby_id).members@,
        client_id,
    ));
    assert(0 <= k < pre.lview().len() && pre.lview()[k].id == lobby_id);
    let base = lobby_at(pre.lview(), lobby_id).members@;
    assert(distinct_member_ids(base)) by {
        assert(pre.lview()[k].wf());
    }
    crate::lobby::lemma_remove_member(base, client_id);
    if destroyed {
        crate::lobby::lemma_remove_lobby(pre.lview(), lobby_id);
    } else {
        crate::lobby::lemma_update_lobby(pre.lview(), k, lobby_at(post.lview(), lobby_id));
    }
    assert(post.timeouts_match()) by {
        assert forall|id: u32| #[trigger] post.times().dom().contains(id) == has_player(
            post.pview(),
            id,
        ) by {
            assert(pre.times().dom().contains(id) == has_player(pre.pview(), id));
        }
    }
    assert(post.lobby_links()) by {
        assert forall|id: u32|
            has_player(post.pview(), id) && (#[trigger] player_at(
                post.pview(),
                id,
            )).lobby_id is Some implies {
            let l = player_at(post.pview(), id).lobby_id->0;
            &&& has_lobby(post.lview(), l)
            &&& has_member(lobby_at(post.lview(), l).members@, id)
        } by {
            assert(id != client_id);
            assert(player_at(post.pview(), id) == player_at(pre.pview(), id));
            assert(has_player(pre.pview(), id));
            let l = player_at(pre.pview(), id).lobby_id->0;
            assert(has_lobby(pre.lview(), l) && has_member(lobby_at(pre.lview(), l).members@, id));
            if l == lobby_id {
                if destroyed {
                    // the lobby had one member, which was the leaving player
                    let mi = member_index(base, id);
                    let mc = member_index(base, client_id);
                    assert(base[mi].id == id && base[mc].id == client_id);
                    assert(false);
                } else {
                    assert(has_member(lobby_at(post.lview(), lobby_id).members@, id));
                }
            } else {
                assert(has_lobby(post.lview(), l) == has_lobby(pre.lview(), l));
                assert(lobby_at(post.lview(), l) == lobby_at(pre.lview(), l));
            }
        }
    }
    assert(post.game_links()) by {
        assert forall|id: u32|
            has_player(post.pview(), id) && (#[trigger] player_at(
                post.pview(),
                id,
            )).game_id is Some implies {
            let g = player_at(post.pview(), id).game_id->0;
            &&& has_game(post.gview(), g)
            &&& has_gplayer(game_at_s(post.gview(), g).players@, id)
        } by {
            if id == client_id {
                assert(player_at(post.pview(), id) == p1);
                assert(p0.memberships_exclusive()) by {
                    assert(pre.pview()[pi].memberships_exclusive());
                }
                assert(p1.game_id is None);
            } else {
                assert(player_at(post.pview(), id) == player_at(pre.pview(), id));
                assert(has_player(pre.pview(), id));
            }
        }
    }
    assert(post.lobby_members_linked()) by {
        assert forall|i: int, j: int|
            #![trigger post.lobbies.lobbies@[i].members@[j]]
            0 <= i < post.lview().len() && 0 <= j < post.lview()[i].members@.len() implies {
            let mid = post.lview()[i].members@[j].id;
            &&& has_player(post.pview(), mid)
            &&& player_at(post.pview(), mid).lobby_id == Some(post.lview()[i].id)
        } by {
            let ll = post.lview()[i];
            let mid = ll.members@[j].id;
            if destroyed {
                let iorig = if i < k {
                    i
                } else {
                    i + 1
                };
                assert(pre.lview()[iorig] == ll);
                assert(pre.lview()[iorig].members@[j].id == mid);
                assert(has_player(pre.pview(), mid) && player_at(pre.pview(), mid).lobby_id
                    == Some(ll.id));
                assert(iorig != k);
                assert(ll.id != lobby_id);
                assert(mid != client_id);
                assert(player_at(post.pview(), mid) == player_at(pre.pview(), mid));
            } else {
                if i == k {
                    assert(ll == lobby_at(post.lview(), lobby_id)) by {
                        let k3 = lobby_index(post.lview(), lobby_id);
                        if k3 != i {
                            assert(post.lview()[k3].id == lobby_id);
                        }
                    }
                    let mj = member_index(base, client_id);
                    let jorig = if j < mj {
                        j
                    } else {
                        j + 1
                    };
                    assert(base[jorig] == ll.members@[j]);
                    assert(pre.lview()[k].members@[jorig].id == mid);
                    assert(has_player(pre.pview(), mid) && player_at(pre.pview(), mid).lobby_id
                        == Some(lobby_id));
                    assert(jorig != mj);
                    assert(mid != client_id) by {
                        if mid == client_id {
                            assert(base[jorig].id == base[mj].id);
                        }
                    }
                    assert(player_at(post.pview(), mid) == player_at(pre.pview(), mid));
                } else {
                    assert(ll == pre.lview()[i]);
                    assert(pre.lview()[i].members@[j].id == mid);
                    assert(has_player(pre.pview(), mid) && player_at(pre.pview(), mid).lobby_id
                        == Some(ll.id));
                    assert(ll.id != lobby_id);
                    assert(mid != client_id);
                    assert(player_at(post.pview(), mid) == player_at(pre.pview(), mid));
                }
            }
        }
    }
    assert(post.game_members_linked()) by {
        assert forall|i: int, j: int|
            #![trigger post.games.games@[i].players@[j]]
            0 <= i < post.gview().len() && 0 <= j < post.gview()[i].players@.len() implies {
            let mid = post.gview()[i].players@[j].id;
            &&& has_player(post.pview(), mid)
            &&& player_at(post.pview(), mid).game_id == Some(post.gview()[i].id)
        } by {
            let mid = pre.gview()[i].players@[j].id;
            assert(has_player(pre.pview(), mid) && player_at(pre.pview(), mid).game_id == Some(
                pre.gview()[i].id,
            ));
            assert(mid != client_id) by {
                if mid == client_id {
                    assert(pre.pview()[pi].memberships_exclusive());
                }
            }
            assert(player_at(post.pview(), mid) == player_at(pre.pview(), mid));
        }
    }
}

/// Frame argument shared by the create-lobby and join-lobby handlers: when a
/// free player's record starts naming the lobby `lobby_id` and that lobby —
/// whose members were `base` before — gains the player as its last member
/// while everything else stands still, the cross-registry invariant holds
/// again.
proof fn lemma_wf_after_join(
    pre: Server,
    post: Server,
    client_id: u32,
    lobby_id: u32,
    base: Seq<LobbyMember>,
)
    requires
        pre.wf(),
        has_player(pre.pview(), client_id),
        free_player(pre.pview(), client_id),
        post.players.wf(),
        post.pview() == pre.pview().update(
            player_index(pre.pview(), client_id),
            (Player { lobby_id: Some(lobby_id), ..player_at(pre.pview(), client_id) }),
        ),
        post.lobbies.wf(),
        has_lobby(post.lview(), lobby_id),
        lobby_at(post.lview(), lobby_id).id == lobby_id,
        lobby_at(post.lview(), lobby_id).members@ == base.push(
            (LobbyMember { id: client_id, ready: false }),
        ),
        has_lobby(pre.lview(), lobby_id) ==> base == lobby_at(pre.lview(), lobby_id).members@,
        !has_lobby(pre.lview(), lobby_id) ==> base == Seq::<LobbyMember>::empty(),
        forall|i: int|
            0 <= i < post.lview().len() && (#[trigger] post.lview()[i]).id != lobby_id
                ==> has_lobby(pre.lview(), post.lview()[i].id) && lobby_at(
                pre.lview(),
                post.lview()[i].id,
            ) == post.lview()[i],
        forall|id2: u32|
            id2 != lobby_id ==> #[trigger] has_lobby(post.lview(), id2) == has_lobby(
                pre.lview(),
                id2,
            ),
        forall|id2: u32|
            id2 != lobby_id && has_lobby(pre.lview(), id2) ==> #[trigger] lobby_at(
                post.lview(),
                id2,
            ) == lobby_at(pre.lview(), id2),
        post.games == pre.games,
        post.timeouts == pre.timeouts,
        post.lobby_capacity == pre.lobby_capacity,
    ensures
        post.wf(),
{
    let pi = player_index(pre.pview(), client_id);
    let p0 = player_at(pre.pview(), client_id);
    let p1 = Player { lobby_id: Some(lobby_id), ..p0 };
    let m = LobbyMember { id: client_id, ready: false };
    assert(0 <= pi < pre.pview().len() && pre.pview()[pi].id == client_id);
    crate::player::lemma_update_player(pre.pview(), pi, p1);
    // the joining player was no member of the target lobby before
    assert(!has_member(base, client_id)) by {
        if has_member(base, client_id) {
            let li = lobby_index(pre.lview(), lobby_id);
            let mj = member_index(base, client_id);
            assert(pre.lview()[li].members@[mj].id == client_id);
        }
    }
    assert(distinct_member_ids(base)) by {
        if has_lobby(pre.lview(), lobby_id) {
            let li = lobby_index(pre.lview(), lobby_id);
            assert(pre.lview()[li].wf());
        }
    }
    crate::lobby::lemma_push_member(base, m);
    assert(post.timeouts_match()) by {
        assert forall|id: u32| #[trigger] post.times().dom().contains(id) == has_player(
            post.pview(),
            id,
        ) by {
            assert(pre.times().dom().contains(id) == has_player(pre.pview(), id));
        }
    }
    assert(post.lobby_links()) by {
        assert forall|id: u32|
            has_player(post.pview(), id) && (#[trigger] player_at(
                post.pview(),
                id,
            )).lobby_id is Some implies {
            let l = player_at(post.pview(), id).lobby_id->0;
            &&& has_lobby(post.lview(), l)
            &&& has_member(lobby_at(post.lview(), l).members@, id)
        } by {
            if id == client_id {
                assert(player_at(post.pview(), id) == p1);
                assert(has_member(lobby_at(post.lview(), lobby_id).members@, id));
            } else {
                assert(player_at(post.pview(), id) == player_at(pre.pview(), id));
                assert(has_player(pre.pview(), id));
                let l = player_at(pre.pview(), id).lobby_id->0;
                assert(has_lobby(pre.lview(), l) && has_member(
                    lobby_at(pre.lview(), l).members@,
                    id,
                ));
                if l == lobby_id {
                    assert(has_member(base, id));
                    assert(has_member(lobby_at(post.lview(), lobby_id).members@, id));
                } else {
                    assert(lobby_at(post.lview(), l) == lobby_at(pre.lview(), l));
                }
            }
        }
    }
    assert(post.game_links()) by {
        assert forall|id: u32|
            has_player(post.pview(), id) && (#[trigger] player_at(
                post.pview(),
                id,
            )).game_id is Some implies {
            let g = player_at(post.pview(), id).game_id->0;
            &&& has_game(post.gview(), g)
            &&& has_gplayer(game_at_s(post.gview(), g).players@, id)
        } by {
            assert(id != client_id);
            assert(player_at(post.pview(), id) == player_at(pre.pview(), id));
            assert(has_player(pre.pview(), id));
        }
    }
    assert(post.lobby_members_linked()) by {
        assert forall|i: int, j: int|
            #![trigger post.lobbies.lobbies@[i].members@[j]]
            0 <= i < post.lview().len() && 0 <= j < post.lview()[i].members@.len() implies {
            let mid = post.lview()[i].members@[j].id;
            &&& has_player(post.pview(), mid)
            &&& player_at(post.pview(), mid).lobby_id == Some(post.lview()[i].id)
        } by {
            let ll = post.lview()[i];
            let mid = ll.members@[j].id;
            if ll.id == lobby_id {
                assert(ll == lobby_at(post.lview(), lobby_id)) by {
                    let k = lobby_index(post.lview(), lobby_id);
                    if k != i {
                        assert(post.lview()[k].id == lobby_id);
                    }
                }
                if j < base.len() {
                    assert(ll.members@[j] == base[j]);
                    let li = lobby_index(pre.lview(), lobby_id);
                    assert(pre.lview()[li].members@[j].id == mid);
                    assert(has_player(pre.pview(), mid) && player_at(
                        pre.pview(),
                        mid,
                    ).lobby_id == Some(lobby_id));
                    assert(mid != client_id);
                    assert(player_at(post.pview(), mid) == player_at(pre.pview(), mid));
                } else {
                    assert(ll.members@[j] == m);
                    assert(player_at(post.pview(), client_id) == p1);
                }
            } else {
                assert(has_lobby(pre.lview(), ll.id) && lobby_at(pre.lview(), ll.id) == ll);
                let li = lobby_index(pre.lview(), ll.id);
                assert(pre.lview()[li] == ll);
                assert(pre.lview()[li].members@[j].id == mid);
                assert(has_player(pre.pview(), mid) && player_at(pre.pview(), mid).lobby_id
                    == Some(ll.id));
                assert(mid != client_id);
                assert(player_at(post.pview(), mid) == player_at(pre.pview(), mid));
            }
        }
    }
    assert(post.game_members_linked()) by {
        assert forall|i: int, j: int|
            #![trigger post.games.games@[i].players@[j]]
            0 <= i < post.gview().len() && 0 <= j < post.gview()[i].players@.len() implies {
            let mid = post.gview()[i].players@[j].id;
            &&& has_player(post.pview(), mid)
            &&& player_at(post.pview(), mid).game_id == Some(post.gview()[i].id)
        } by {
            let mid = pre.gview()[i].players@[j].id;
            assert(has_player(pre.pview(), mid) && player_at(pre.pview(), mid).game_id == Some(
                pre.gview()[i].id,
            ));
            assert(mid != client_id);
            assert(player_at(post.pview(), mid) == player_at(pre.pview(), mid));
        }
    }
}

/// Lobby membership and game membership are never simultaneously set for
/// the same player: every handler keeps `wf`, and under `wf` each record
/// satisfies the exclusivity invariant, so the property holds after any
/// sequence of connect, lobby, game and disconnect operations.
pub proof fn lemma_memberships_exclusive(s: Server, id: u32)
    requires
        s.wf(),
        has_player(s.pview(), id),
    ensures
        !(player_at(s.pview(), id).lobby_id is Some && player_at(s.pview(), id).game_id is Some),
{
    let i = player_index(s.pview(), id);
    assert(s.pview()[i].memberships_exclusive());
}

} // verus!
