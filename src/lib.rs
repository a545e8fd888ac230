//! Matchmaking and session relay for an online multiplayer game, together with
//! the validation rules for uploaded monster assets.

pub mod hub;
pub mod connection;
pub mod monster;
pub mod upload;
