pub mod document;
pub mod game;
pub mod handshake;
pub mod hashing;
pub mod identity;
pub mod log;
pub mod op;
pub mod play;
pub mod replay;
pub mod rules;
pub mod simulation;
