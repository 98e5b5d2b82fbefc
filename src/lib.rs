//! A variable-size tic-tac-toe model: boards of size 3, 5 or 7, their
//! win / tie / pending evaluation, move engines, and the decoder of the
//! compact move token that describes a game.

pub mod board;
pub mod engine;
pub mod player;
pub mod server;
pub mod size;
