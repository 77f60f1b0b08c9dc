//! Replies and the line-level protocol steps of a bot session.
pub mod functions;

pub use self::functions::{is_valid_channel_name, make_reply};
