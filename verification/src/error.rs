use vstd::prelude::*;

verus! {

/// Error taxonomy of the session and matchmaking core.
///
/// Every handler failure is one of these; the dispatcher recovers them at its
/// boundary and turns them into a `success: false` response, so an error never
/// terminates the session by itself.
#[derive(Clone, Copy, Debug, PartialEq, Eq, Structural)]
pub enum ServerError {
    /// A connect request named an identity that already has a player record.
    AlreadyConnected,
    /// The identity has no player record.
    PlayerNotFound,
    /// The named lobby does not exist, or the player is in no lobby.
    LobbyNotFound,
    /// The player is in no game.
    GameNotFound,
    /// The lobby is at capacity.
    Full,
    /// The player already belongs to a lobby or a game.
    AlreadyMember,
    /// The identity is not a member of the lobby.
    NotMember,
    /// The player tried to place a tile outside their turn.
    WrongTurn,
    /// The tile coordinates lie outside the board.
    OutOfBounds,
    /// The card index does not name a card in the player's hand.
    InvalidCard,
    /// The lobby has fewer members than a game needs.
    InsufficientPlayers,
    /// Some lobby member has not set their readiness flag.
    NotAllReady,
}

} // verus!
