//! Session and matchmaking core of a real-time multiplayer game server.
//!
//! The library tracks online players, lobbies, in-progress games and
//! per-connection liveness, and routes decoded requests to per-operation
//! handlers. Network transport, wire framing and the board-game rules are
//! external collaborators: the surrounding program feeds this core plain
//! values (identities, names, timestamps) and sends the responses back.

pub mod controller;
pub mod error;
pub mod frame;
pub mod game;
pub mod lobby;
pub mod player;
pub mod server;
pub mod session;
pub mod timeout;
