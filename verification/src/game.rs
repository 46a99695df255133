use vstd::prelude::*;

use crate::error::ServerError;

verus! {

/// Cards dealt to each participant when a game starts. Hand contents and the
/// deck are owned by the external rules service; this core tracks only how
/// many cards a participant can still play, which is what card-index
/// validation needs.
pub const STARTING_HAND: usize = 8;

/// Exclusive upper bound of the board coordinates: a tile may be placed at
/// `x, y < BOARD_BOUND` only.
pub const BOARD_BOUND: u8 = 26;

/// One game participant: a connection identity and the number of cards left
/// in its hand.
#[derive(Debug, Clone, Copy, PartialEq, Eq, Structural)]
pub struct GamePlayer {
    pub id: u32,
    pub cards: usize,
}

/// Whether some participant of `s` carries the identity `id`.
pub open spec fn has_gplayer(s: Seq<GamePlayer>, id: u32) -> bool {
    exists|i: int| 0 <= i < s.len() && s[i].id == id
}

/// The position of the participant with identity `id`; meaningful only under
/// `has_gplayer`.
pub open spec fn gplayer_index(s: Seq<GamePlayer>, id: u32) -> int {
    choose|i: int| 0 <= i < s.len() && s[i].id == id
}

/// The participant with identity `id`; meaningful only under `has_gplayer`.
pub open spec fn gplayer_at(s: Seq<GamePlayer>, id: u32) -> GamePlayer {
    s[gplayer_index(s, id)]
}

/// No two participants share an identity.
pub open spec fn distinct_gplayer_ids(s: Seq<GamePlayer>) -> bool {
    forall|i: int, j: int| 0 <= i < j < s.len() ==> s[i].id != s[j].id
}

/// Where the turn marker stands after the participant at `removed` leaves a
/// list that now has `new_len` entries: positions before the marker shift it
/// down by one; a marker that fell off the end wraps to the front.
pub open spec fn turn_after_removal(turn: int, removed: int, new_len: int) -> int {
    if removed < turn {
        turn - 1
    } else if turn >= new_len {
        0
    } else {
        turn
    }
}

/// An in-progress game as the session layer sees it: the participant set in
/// turn order, a turn marker, and per-participant hand sizes. Board state,
/// symbols and scoring live in the external rules service.
#[derive(Debug, Clone)]
pub struct Game {
    pub id: u32,
    pub players: Vec<GamePlayer>,
    pub turn_index: usize,
}

impl Game {
    /// Game invariant: participant identities are unique and the turn marker
    /// points at a participant whenever any remain.
    pub open spec fn wf(self) -> bool {
        &&& distinct_gplayer_ids(self.players@)
        &&& self.players@.len() > 0 ==> self.turn_index < self.players@.len()
        &&& self.players@.len() == 0 ==> self.turn_index == 0
    }

    /// The position of the participant with identity `id`, if present.
    pub fn index_of_player(&self, id: u32) -> (r: Option<usize>)
        ensures
            r is Some <==> has_gplayer(self.players@, id),
            r matches Some(i) ==> 0 <= i < self.players@.len() && self.players@[i as int].id
                == id,
            self.wf() ==> (r matches Some(i) ==> i as int == gplayer_index(self.players@, id)),
    {
        let mut i: usize = 0;
        while i < self.players.len()
            invariant
                0 <= i <= self.players@.len(),
                forall|j: int| 0 <= j < i ==> self.players@[j].id != id,
            decreases self.players@.len() - i,
        {
            if self.players[i].id == id {
                proof {
                    if distinct_gplayer_ids(self.players@) {
                        let k = gplayer_index(self.players@, id);
                        if k != i as int {
                            assert(self.players@[k].id == id);
                        }
                    }
                }
                return Some(i);
            }
            i += 1;
        }
        None
    }

    /// Look up the participant with identity `id`.
    pub fn get_player(&self, id: u32) -> (r: Option<&GamePlayer>)
        requires
            self.wf(),
        ensures
            r is Some <==> has_gplayer(self.players@, id),
            r matches Some(p) ==> *p == gplayer_at(self.players@, id),
    {
        match self.index_of_player(id) {
            Some(i) => Some(&self.players[i]),
            None => None,
        }
    }

    /// The identity whose turn it is. Turn order itself is owned by the rules
    /// service; the session layer tracks only whose turn it is, to reject
    /// placements out of turn.
    pub fn get_player_in_this_turn(&self) -> (r: u32)
        requires
            self.wf(),
            self.players@.len() > 0,
        ensures
            r == self.players@[self.turn_index as int].id,
    {
        self.players[self.turn_index].id
    }

    /// Consume one card from the hand of the participant at `j` and pass the
    /// turn to the next participant in order.
    pub fn play_at(&mut self, j: usize)
        requires
            old(self).wf(),
            j < old(self).players@.len(),
            old(self).players@[j as int].cards > 0,
        ensures
            final(self).wf(),
            final(self).id == old(self).id,
            final(self).players@ == old(self).players@.update(
                j as int,
                (GamePlayer {
                    id: old(self).players@[j as int].id,
                    cards: (old(self).players@[j as int].cards - 1) as usize,
                }),
            ),
            final(self).turn_index as int == (old(self).turn_index + 1) % (
            old(self).players@.len() as int),
    {
        let c = self.players[j].cards;
        let pid = self.players[j].id;
        self.players.set(j, GamePlayer { id: pid, cards: c - 1 });
        let n = self.players.len();
        proof {
            assert(self.turn_index < n);
        }
        self.turn_index = (self.turn_index + 1) % n;
        proof {
            let s = old(self).players@;
            let t = self.players@;
            assert forall|a: int, b: int| 0 <= a < b < t.len() implies t[a].id != t[b].id by {
                assert(s[a].id == t[a].id && s[b].id == t[b].id);
            }
        }
    }
}

/// Whether some game in `s` carries the identity `id`.
pub open spec fn has_game(s: Seq<Game>, id: u32) -> bool {
    exists|i: int| 0 <= i < s.len() && s[i].id == id
}

/// The position of the game with identity `id`; meaningful only under
/// `has_game`.
pub open spec fn game_index(s: Seq<Game>, id: u32) -> int {
    choose|i: int| 0 <= i < s.len() && s[i].id == id
}

/// The game with identity `id`; meaningful only under `has_game`.
pub open spec fn game_at(s: Seq<Game>, id: u32) -> Game {
    s[game_index(s, id)]
}

/// No two games share an identity.
pub open spec fn distinct_game_ids(s: Seq<Game>) -> bool {
    forall|i: int, j: int| 0 <= i < j < s.len() ==> s[i].id != s[j].id
}

/// Registry of in-progress games, membership only: rule state lives with the
/// external rules service. Identities count up from zero and are never
/// reused.
#[derive(Debug)]
pub struct Games {
    pub games: Vec<Game>,
    pub next_id: u32,
}

impl Games {
    /// Registry invariant: game identities are unique and below the
    /// allocation counter, and every game is well formed.
    pub open spec fn wf(self) -> bool {
        &&& distinct_game_ids(self.games@)
        &&& forall|i: int| 0 <= i < self.games@.len() ==> (#[trigger] self.games@[i]).wf()
        &&& forall|i: int|
            0 <= i < self.games@.len() ==> (#[trigger] self.games@[i]).id < self.next_id
    }

    pub fn new() -> (r: Games)
        ensures
            r.wf(),
            r.games@ =~= Seq::<Game>::empty(),
            r.next_id == 0,
    {
        Games { games: Vec::new(), next_id: 0 }
    }

    /// The position of the game with identity `id`, if present.
    pub fn index_of(&self, id: u32) -> (r: Option<usize>)
        ensures
            r is Some <==> has_game(self.games@, id),
            r matches Some(i) ==> 0 <= i < self.games@.len() && self.games@[i as int].id == id,
            self.wf() ==> (r matches Some(i) ==> i as int == game_index(self.games@, id)),
    {
        let mut i: usize = 0;
        while i < self.games.len()
            invariant
                0 <= i <= self.games@.len(),
                forall|j: int| 0 <= j < i ==> self.games@[j].id != id,
            decreases self.games@.len() - i,
        {
            if self.games[i].id == id {
                proof {
                    if distinct_game_ids(self.games@) {
                        let k = game_index(self.games@, id);
                        if k != i as int {
                            assert(self.games@[k].id == id);
                        }
                    }
                }
                return Some(i);
            }
            i += 1;
        }
        None
    }

    /// Look up the game with identity `id`.
    pub fn get_game(&self, id: u32) -> (r: Option<&Game>)
        requires
            self.wf(),
        ensures
            r is Some <==> has_game(self.games@, id),
            r matches Some(g) ==> *g == game_at(self.games@, id),
    {
        match self.index_of(id) {
            Some(i) => Some(&self.games[i]),
            None => None,
        }
    }

    /// Create a game under a fresh identity with the given participants in
    /// order, each dealt a starting hand, the turn marker on the first
    /// participant. Returns the new identity.
    pub fn create_game(&mut self, participant_ids: &Vec<u32>) -> (r: u32)
        requires
            old(self).wf(),
            old(self).next_id < u32::MAX,
            participant_ids@.len() >= 1,
            forall|i: int, j: int|
                0 <= i < j < participant_ids@.len() ==> participant_ids@[i] != participant_ids@[j],
        ensures
            final(self).wf(),
            r == old(self).next_id,
            final(self).next_id == old(self).next_id + 1,
            final(self).games@.len() == old(self).games@.len() + 1,
            final(self).games@ == old(self).games@.push(game_at(final(self).games@, r)),
            forall|i: int|
                0 <= i < old(self).games@.len() ==> final(self).games@[i] == old(self).games@[i],
            !has_game(old(self).games@, r),
            has_game(final(self).games@, r),
            game_at(final(self).games@, r).id == r,
            game_at(final(self).games@, r).turn_index == 0,
            game_at(final(self).games@, r).players@.len() == participant_ids@.len(),
            forall|i: int|
                0 <= i < participant_ids@.len() ==> #[trigger] game_at(
                    final(self).games@,
                    r,
                ).players@[i] == (GamePlayer { id: participant_ids@[i], cards: STARTING_HAND }),
            forall|id2: u32|
                id2 != r ==> #[trigger] has_game(final(self).games@, id2) == has_game(
                    old(self).games@,
                    id2,
                ),
            forall|id2: u32|
                id2 != r && has_game(old(self).games@, id2) ==> #[trigger] game_at(
                    final(self).games@,
                    id2,
                ) == game_at(old(self).games@, id2),
    {
        let mut players: Vec<GamePlayer> = Vec::new();
        let mut i: usize = 0;
        while i < participant_ids.len()
            invariant
                0 <= i <= participant_ids@.len(),
                players@.len() == i,
                forall|j: int|
                    0 <= j < i ==> #[trigger] players@[j] == (GamePlayer {
                        id: participant_ids@[j],
                        cards: STARTING_HAND,
                    }),
            decreases participant_ids@.len() - i,
        {
            players.push(GamePlayer { id: participant_ids[i], cards: STARTING_HAND });
            i += 1;
        }
        let id = self.next_id;
        let game = Game { id, players, turn_index: 0 };
        proof {
            assert forall|a: int, b: int| 0 <= a < b < game.players@.len() implies game.players@[a].id
                != game.players@[b].id by {
                assert(game.players@[a].id == participant_ids@[a]);
                assert(game.players@[b].id == participant_ids@[b]);
            }
            if has_game(self.games@, id) {
                let k = game_index(self.games@, id);
                assert(self.games@[k].id == id);
            }
            lemma_push_game(self.games@, game);
        }
        self.games.push(game);
        self.next_id = self.next_id + 1;
        id
    }

    /// Remove `player_id` from the participant set of `game_id`. The game
    /// itself stays in the registry, with the remaining participants, even
    /// when the set becomes empty: a disconnect does not terminate the game.
    pub fn remove_participant(&mut self, game_id: u32, player_id: u32) -> (r: Result<
        (),
        ServerError,
    >)
        requires
            old(self).wf(),
        ensures
            final(self).wf(),
            final(self).next_id == old(self).next_id,
            !has_game(old(self).games@, game_id) ==> r == Err::<(), ServerError>(
                ServerError::GameNotFound,
            ) && *final(self) == *old(self),
            has_game(old(self).games@, game_id) && !has_gplayer(
                game_at(old(self).games@, game_id).players@,
                player_id,
            ) ==> r == Err::<(), ServerError>(ServerError::NotMember) && *final(self) == *old(
                self,
            ),
            has_game(old(self).games@, game_id) && has_gplayer(
                game_at(old(self).games@, game_id).players@,
                player_id,
            ) ==> {
                let g = game_at(old(self).games@, game_id);
                let k = gplayer_index(g.players@, player_id);
                &&& r is Ok
                &&& has_game(final(self).games@, game_id)
                &&& game_at(final(self).games@, game_id).id == game_id
                &&& game_at(final(self).games@, game_id).players@ == g.players@.remove(k)
                &&& game_at(final(self).games@, game_id).turn_index as int == turn_after_removal(
                    g.turn_index as int,
                    k,
                    g.players@.len() - 1,
                )
                &&& final(self).games@ == old(self).games@.update(
                    game_index(old(self).games@, game_id),
                    game_at(final(self).games@, game_id),
                )
                &&& !has_gplayer(game_at(final(self).games@, game_id).players@, player_id)
                &&& forall|id2: u32|
                    id2 != game_id ==> #[trigger] has_game(final(self).games@, id2) == has_game(
                        old(self).games@,
                        id2,
                    )
                &&& forall|id2: u32|
                    id2 != game_id && has_game(old(self).games@, id2) ==> #[trigger] game_at(
                        final(self).games@,
                        id2,
                    ) == game_at(old(self).games@, id2)
            },
    {
        let gi = match self.index_of(game_id) {
            Some(gi) => gi,
            None => {
                return Err(ServerError::GameNotFound);
            },
        };
        let pj = match self.games[gi].index_of_player(player_id) {
            Some(pj) => pj,
            None => {
                return Err(ServerError::NotMember);
            },
        };
        let ghost g0 = self.games@[gi as int];
        let g = &mut self.games[gi];
        proof {
            lemma_remove_gplayer(g.players@, player_id);
        }
        g.players.remove(pj);
        if g.turn_index > pj {
            g.turn_index = g.turn_index - 1;
        } else if g.turn_index >= g.players.len() {
            g.turn_index = 0;
        }
        proof {
            lemma_update_game(old(self).games@, gi as int, *final(g));
        }
        Ok(())
    }
}

/// After removing the participant at `gplayer_index(s, id)` from a
/// duplicate-free sequence, `id` is gone and every other identity keeps its
/// entry.
pub proof fn lemma_remove_gplayer(s: Seq<GamePlayer>, id: u32)
    requires
        distinct_gplayer_ids(s),
        has_gplayer(s, id),
    ensures
        distinct_gplayer_ids(s.remove(gplayer_index(s, id))),
        !has_gplayer(s.remove(gplayer_index(s, id)), id),
        forall|id2: u32|
            id2 != id ==> #[trigger] has_gplayer(s.remove(gplayer_index(s, id)), id2)
                == has_gplayer(s, id2),
        forall|id2: u32|
            id2 != id && has_gplayer(s, id2) ==> #[trigger] gplayer_at(
                s.remove(gplayer_index(s, id)),
                id2,
            ) == gplayer_at(s, id2),
{
    let k = gplayer_index(s, id);
    let t = s.remove(k);
    assert forall|id2: u32| id2 != id implies #[trigger] has_gplayer(t, id2) == has_gplayer(
        s,
        id2,
    ) by {
        if has_gplayer(s, id2) {
            let j = gplayer_index(s, id2);
            assert(s[j].id == id2);
            if j < k {
                assert(t[j] == s[j]);
            } else {
                assert(s[j].id != s[k].id);
                assert(j > k);
                assert(t[j - 1] == s[j]);
            }
        }
        if has_gplayer(t, id2) {
            let j = choose|i: int| 0 <= i < t.len() && t[i].id == id2;
            if j < k {
                assert(s[j] == t[j]);
            } else {
                assert(s[j + 1] == t[j]);
            }
        }
    }
    if has_gplayer(t, id) {
        let j = choose|i: int| 0 <= i < t.len() && t[i].id == id;
        if j < k {
            assert(s[j].id == id);
            assert(s[k].id == id);
        } else {
            assert(s[j + 1].id == id);
            assert(s[k].id == id);
        }
    }
    assert forall|id2: u32| id2 != id && has_gplayer(s, id2) implies #[trigger] gplayer_at(t, id2)
        == gplayer_at(s, id2) by {
        let j = gplayer_index(s, id2);
        assert(s[j].id == id2);
        if j < k {
            assert(t[j] == s[j]);
        } else {
            assert(j != k);
            assert(t[j - 1] == s[j]);
        }
        let j2 = gplayer_index(t, id2);
        assert(t[j2].id == id2);
        let back = if j2 < k {
            j2
        } else {
            j2 + 1
        };
        assert(s[back] == t[j2]);
        assert(back == j);
    }
}

/// Pushing a game with a fresh identity keeps distinctness; the new identity
/// becomes present and every other identity keeps its game.
pub proof fn lemma_push_game(s: Seq<Game>, g: Game)
    requires
        distinct_game_ids(s),
        !has_game(s, g.id),
    ensures
        distinct_game_ids(s.push(g)),
        has_game(s.push(g), g.id),
        game_at(s.push(g), g.id) == g,
        forall|id2: u32| id2 != g.id ==> #[trigger] has_game(s.push(g), id2) == has_game(s, id2),
        forall|id2: u32|
            id2 != g.id && has_game(s, id2) ==> #[trigger] game_at(s.push(g), id2) == game_at(
                s,
                id2,
            ),
{
    let t = s.push(g);
    assert(t[s.len() as int] == g);
    assert forall|i: int, j: int| 0 <= i < j < t.len() implies t[i].id != t[j].id by {
        if j < s.len() {
            assert(t[i] == s[i] && t[j] == s[j]);
        } else {
            assert(t[i] == s[i]);
            if t[i].id == g.id {
                assert(has_game(s, g.id));
            }
        }
    }
    let k = game_index(t, g.id);
    if k != s.len() {
        assert(t[k].id == g.id);
        assert(s[k] == t[k]);
        assert(has_game(s, g.id));
    }
    assert forall|id2: u32| id2 != g.id implies #[trigger] has_game(t, id2) == has_game(
        s,
        id2,
    ) by {
        if has_game(s, id2) {
            let j = game_index(s, id2);
            assert(t[j] == s[j]);
        }
        if has_game(t, id2) {
            let j = choose|x: int| 0 <= x < t.len() && t[x].id == id2;
            assert(j < s.len());
            assert(s[j] == t[j]);
        }
    }
    assert forall|id2: u32| id2 != g.id && has_game(s, id2) implies #[trigger] game_at(t, id2)
        == game_at(s, id2) by {
        let j = game_index(s, id2);
        assert(s[j].id == id2);
        assert(t[j] == s[j]);
        let j2 = game_index(t, id2);
        assert(t[j2].id == id2);
        assert(j2 < s.len());
        assert(s[j2] == t[j2]);
        assert(j2 == j);
    }
}

/// Updating the game at a live index `i` with a game that keeps the same
/// identity preserves distinctness, and `game_at` afterwards reads the new
/// game at that identity and the old game everywhere else.
pub proof fn lemma_update_game(s: Seq<Game>, i: int, g: Game)
    requires
        distinct_game_ids(s),
        0 <= i < s.len(),
        g.id == s[i].id,
    ensures
        distinct_game_ids(s.update(i, g)),
        forall|id2: u32| #[trigger] has_game(s.update(i, g), id2) == has_game(s, id2),
        game_index(s, g.id) == i,
        game_at(s.update(i, g), g.id) == g,
        forall|id2: u32|
            id2 != g.id && has_game(s, id2) ==> #[trigger] game_at(s.update(i, g), id2) == game_at(
                s,
                id2,
            ),
{
    let t = s.update(i, g);
    assert forall|id2: u32| #[trigger] has_game(t, id2) == has_game(s, id2) by {
        if has_game(s, id2) {
            let j = game_index(s, id2);
            if j == i {
                assert(t[i].id == g.id && s[i].id == id2);
            } else {
                assert(t[j] == s[j]);
            }
        }
        if has_game(t, id2) {
            let j = choose|x: int| 0 <= x < t.len() && t[x].id == id2;
            if j == i {
                assert(s[i].id == g.id);
            } else {
                assert(s[j] == t[j]);
            }
        }
    }
    let k = game_index(s, g.id);
    assert(s[i].id == g.id);
    if k != i {
        assert(s[k].id == g.id);
        assert(false);
    }
    let k2 = game_index(t, g.id);
    assert(t[i].id == g.id);
    if k2 != i {
        assert(t[k2].id == g.id);
        assert(s[k2] == t[k2]);
        assert(false);
    }
    assert forall|id2: u32| id2 != g.id && has_game(s, id2) implies #[trigger] game_at(t, id2)
        == game_at(s, id2) by {
        let j = game_index(s, id2);
        assert(s[j].id == id2);
        assert(j != i);
        assert(t[j] == s[j]);
        let j2 = game_index(t, id2);
        assert(t[j2].id == id2);
        assert(j2 != i);
        assert(s[j2] == t[j2]);
        assert(j2 == j);
    }
}

} // verus!
