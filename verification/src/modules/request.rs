//! Recognising a command sent to the bot in a `PRIVMSG`.
use vstd::prelude::*;

use crate::irc_lib::{Message, MessageView};
use crate::text::{starts_with, starts_with_str, str_eq};

verus! {

/// `m` is a `PRIVMSG` with a target and a text, and the text begins with
/// `cmd`.
pub open spec fn privmsg_request(m: MessageView, cmd: Seq<char>) -> bool {
    &&& m.command == "PRIVMSG"@
    &&& m.params.len() == 2
    &&& starts_with(m.params[1], cmd)
}

/// Whether `msg` is a `PRIVMSG` whose text begins with `cmd`.
pub fn is_privmsg_request(msg: &Message, cmd: &str) -> (r: bool)
    ensures
        r == privmsg_request(msg@, cmd@),
{
    str_eq(msg.command, "PRIVMSG") && msg.params.len() == 2 && starts_with_str(msg.params[1], cmd)
}

} // verus!
