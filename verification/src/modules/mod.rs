//! The bot's modules: each answers the messages it is meant for with the
//! lines to send back.
pub mod fortune;
pub mod id;
pub mod markov;
pub mod ping;
pub mod random;
mod request;

pub use self::fortune::fortune_reply as fortune;
pub use self::id::id_module as id;
pub use self::ping::ping_module as ping;
pub use self::random::random_module as random;
pub use self::request::{is_privmsg_request, privmsg_request};
