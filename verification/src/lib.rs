//! Room and game-session engine for two multiplayer word games.
//!
//! Every operation is a step of a state machine: it takes the state and an
//! event, changes the state and returns the effects (messages to deliver,
//! sockets to close, timers to start or cancel) for the caller to carry out.

pub mod outside;
pub mod text;
pub mod global;
pub mod error;
pub mod word_bomb;
pub mod ranking;
pub mod stats;
pub mod anagrams;
pub mod messages;
pub mod clients;
pub mod lobby;
pub mod room;
pub mod play;
pub mod state;
pub mod routes;
pub mod laws;
