//! Matchmaking and signaling service core.
//!
//! Clients authenticate with a public-key challenge/response scheme,
//! create or discover lobbies, join them, and then relay WebRTC
//! signaling messages to the other members of their lobby. This crate
//! holds the state that those operations share -- the challenge store,
//! the lobby table and its cross-indexes -- together with the rules
//! that keep them consistent.

pub mod auth;
pub mod errors;
pub mod helpers;
pub mod index;
pub mod lobby;
pub mod state;
pub mod topology;
