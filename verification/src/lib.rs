//! An authoritative multiplayer grid-world: a bounded 2-D grid of players,
//! pushable walls and respawning power pickups, together with the pure parts
//! of the server that drives it (connection registry, control queue, bot
//! roster, rate limiter and broadcast planning). Socket transport, message
//! framing and rendering live outside this crate.

pub mod client;
pub mod clients;
pub mod common;
pub mod essence;
pub mod game;
pub mod grid;
pub mod overrides;
pub mod player;
pub mod rng;
pub mod server;
pub mod table;
pub mod walls;
