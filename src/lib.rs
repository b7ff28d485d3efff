//! Rules engine, state codec and wire formats of a Quoridor judge.
pub mod base64;
pub mod board;
pub mod codec;
pub mod command;
pub mod decode;
pub mod game;
pub mod server;
pub mod websocket;

pub use base64::{append, bitvec_to_base64, from_u16, from_u8};
pub use board::{Colour, Dir, WallTable};
pub use command::Command;
pub use game::{PlayError, Quoridor, Record};
pub use websocket::MyFactory;
