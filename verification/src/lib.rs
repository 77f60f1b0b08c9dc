pub mod ext;
pub mod irc_lib;
pub mod modules;
pub mod text;
pub mod utils;
pub mod wire;
