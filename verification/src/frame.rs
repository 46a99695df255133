use vstd::prelude::*;

verus! {

/// One raw frame as the external codec hands it over: an operation code and
/// its undecoded payload bytes. The wire-level byte format itself is out of
/// scope here; the surrounding program decodes a `Context` into a `Request`
/// before calling the dispatcher.
#[derive(Debug, Clone)]
pub struct Context {
    pub opcode: u8,
    pub payload: Vec<u8>,
}

/// Per-request context the dispatcher passes to a handler: the connection
/// identity the request arrived on.
#[derive(Debug, Clone, Copy, PartialEq, Eq, Structural)]
pub struct RequestContext {
    pub client_id: u32,
}

/// Payload of a connect request: the display name to register under.
#[derive(Debug, Clone)]
pub struct ConnectRequest {
    pub name: String,
}

/// Payload of a join-lobby request.
#[derive(Debug, Clone, Copy, PartialEq, Eq, Structural)]
pub struct JoinLobbyRequest {
    pub lobby_id: u32,
}

/// Payload of a place-tile request: board coordinates and the index of the
/// card to play from the caller's hand.
#[derive(Debug, Clone, Copy, PartialEq, Eq, Structural)]
pub struct SetTileRequest {
    pub x: u8,
    pub y: u8,
    pub card_index: u8,
}

/// A decoded request, one variant per protocol operation.
#[derive(Debug, Clone)]
pub enum Request {
    Connect(ConnectRequest),
    Disconnect,
    Heartbeat,
    CreateLobby,
    JoinLobby(JoinLobbyRequest),
    QuitLobby,
    SetTile(SetTileRequest),
}

/// Response snapshot of a lobby, sent back on create and join.
#[derive(Debug, Clone, PartialEq, Eq)]
pub struct LobbyInfo {
    pub id: u32,
    pub players: Vec<u32>,
}

#[derive(Debug, Clone, Copy, PartialEq, Eq, Structural)]
pub struct ConnectResponse {
    pub success: bool,
}

#[derive(Debug, Clone, Copy, PartialEq, Eq, Structural)]
pub struct DisconnectResponse {
    pub success: bool,
}

#[derive(Debug, Clone, Copy, PartialEq, Eq, Structural)]
pub struct HeartbeatResponse {
    pub success: bool,
}

#[derive(Debug, Clone, PartialEq, Eq)]
pub struct CreateResponse {
    pub success: bool,
    pub lobby: Option<LobbyInfo>,
}

#[derive(Debug, Clone, PartialEq, Eq)]
pub struct JoinResponse {
    pub success: bool,
    pub lobby: Option<LobbyInfo>,
}

#[derive(Debug, Clone, Copy, PartialEq, Eq, Structural)]
pub struct QuitResponse {
    pub success: bool,
}

#[derive(Debug, Clone, Copy, PartialEq, Eq, Structural)]
pub struct SetTileResponse {
    pub success: bool,
}

/// A typed response, one variant per protocol operation. Every request gets
/// exactly one of these back; `success: false` marks a recovered handler
/// error.
#[derive(Debug, Clone)]
pub enum Response {
    Connect(ConnectResponse),
    Disconnect(DisconnectResponse),
    Heartbeat(HeartbeatResponse),
    CreateLobby(CreateResponse),
    JoinLobby(JoinResponse),
    QuitLobby(QuitResponse),
    SetTile(SetTileResponse),
}

} // verus!
